use asw::bounds::Bbox;
use asw::config::{hetzner_location, resolve_bbox, HETZNER_IMAGE, HETZNER_SERVER_NAME};
use asw::hetzner::{
    after_refusal, bootstrap, choose_ssh_key, create_request, created_address, find_server,
    key_fingerprint, next_place, provision, server_path, server_query, short_hash, ssh_key_name,
    status, teardown, CreateStep, Ipv4Info, KeyChoice, Provision, ProvisionError, PublicNet,
    ServerInfo, SshKeyInfo,
};
use asw::pipeline::{
    bbox_sidecar_path, bbox_slug, probe_answer, probe_command, read_marker_command,
    remote_hash_path, source_matches, write_marker_command, Findings, Pipeline, Step, StepAction,
};
use asw::source::{is_source, source_hash, SourceFile};
use asw::ssh::{
    find_ssh_key, scp_download_args, scp_upload_args, ssh_args, ssh_base_args, ssh_key_candidate,
    ssh_target, wait_over, KeyError, SshConfig,
};
use std::collections::hash_map::DefaultHasher;
use std::hash::{Hash, Hasher};

fn bbox(min_lon: f64, min_lat: f64, max_lon: f64, max_lat: f64) -> Option<Bbox> {
    let nano = |d: f64| (d * 1e9).round() as i64;
    Some(Bbox {
        min_lon: nano(min_lon),
        min_lat: nano(min_lat),
        max_lon: nano(max_lon),
        max_lat: nano(max_lat),
    })
}

fn test_pipeline(output_path: &str, bbox: Option<Bbox>) -> Pipeline {
    Pipeline {
        host: None,
        ssh_key_path: String::new(),
        output_path: output_path.to_string(),
        keep_server: false,
        hetzner_token: None,
        bbox,
        rust_src_dir: String::new(),
    }
}

#[test]
fn ssh_key_name_truncates_ascii_comment() {
    assert_eq!(
        ssh_key_name(Some("ivan@buro-macbook")),
        "asw-ivan@buro-macboo"
    );
}

#[test]
fn ssh_key_name_does_not_panic_on_non_ascii_comment() {
    // 15 ASCII bytes followed by a character of two bytes: the cut must not fall
    // inside it.
    let comment = "aaaaaaaaaaaaaaa\u{fc}"; // 15 'a's + 'ü'
    let name = ssh_key_name(Some(comment));
    assert_eq!(name, "asw-aaaaaaaaaaaaaaa\u{fc}");
}

#[test]
fn ssh_key_name_handles_real_world_non_ascii_hostname() {
    let name = ssh_key_name(Some("ivan@b\u{fc}ro-macbook"));
    // Must not panic; truncates by char count, not byte count.
    assert_eq!(name.chars().count(), 4 + 16); // "asw-" + 16 chars
}

#[test]
fn ssh_key_name_falls_back_when_no_comment() {
    assert_eq!(ssh_key_name(None), "asw-key");
    assert_eq!(ssh_key_name(Some("")), "asw-key");
}

#[test]
fn bbox_slug_none_is_full() {
    assert_eq!(bbox_slug(None), "full");
}

#[test]
fn bbox_slug_differs_by_bbox() {
    let marmaris = bbox_slug(bbox(27.5, 36.0, 30.0, 37.0));
    let dev = bbox_slug(bbox(-5.0, 48.0, 10.0, 62.0));
    assert_ne!(marmaris, dev);
    assert_ne!(marmaris, "full");
}

#[test]
fn remote_graph_path_includes_bbox_slug() {
    let marmaris = test_pipeline("", bbox(27.5, 36.0, 30.0, 37.0));
    let dev = test_pipeline("", bbox(-5.0, 48.0, 10.0, 62.0));
    let full = test_pipeline("", None);

    assert_ne!(marmaris.remote_graph_path(), dev.remote_graph_path());
    assert_ne!(marmaris.remote_graph_path(), full.remote_graph_path());
    assert!(marmaris
        .remote_graph_path()
        .contains(&bbox_slug(marmaris.bbox)));
}

#[test]
fn bbox_sidecar_path_is_alongside_output() {
    let sidecar = bbox_sidecar_path("/tmp/export/asw.graph");
    assert_eq!(sidecar, "/tmp/export/asw.graph.bbox");
}

// Build for "marmaris", then for "dev" with the same output path. The stale
// marker must NOT be reported as cached for the new box.
#[test]
fn download_cache_does_not_hit_for_a_different_bbox() {
    let marmaris_pipeline = test_pipeline("asw.graph", bbox(27.5, 36.0, 30.0, 37.0));
    let marker = bbox_slug(marmaris_pipeline.bbox);
    assert!(marmaris_pipeline.local_download_cache_matches(Some(&marker)));

    let dev_pipeline = test_pipeline("asw.graph", bbox(-5.0, 48.0, 10.0, 62.0));
    assert!(
        !dev_pipeline.local_download_cache_matches(Some(&marker)),
        "a stale sidecar from a different bbox must not be treated as cached"
    );
}

#[test]
fn download_cache_misses_when_sidecar_is_missing() {
    let pipeline = test_pipeline("asw.graph", bbox(27.5, 36.0, 30.0, 37.0));
    assert!(!pipeline.local_download_cache_matches(None));
}

#[test]
fn download_cache_hits_for_matching_bbox() {
    let b = bbox(27.5, 36.0, 30.0, 37.0);
    let pipeline = test_pipeline("asw.graph", b);
    assert!(pipeline.local_download_cache_matches(Some(&bbox_slug(b))));
    assert!(pipeline.local_download_cache_matches(Some(&format!(" {}\n", bbox_slug(b)))));
}

/// The hash of a tree with these files.
fn tree_hash(files: &[(&str, &str)]) -> String {
    let all: Vec<SourceFile> = files
        .iter()
        .map(|(path, contents)| SourceFile {
            path: format!("/src/{}", path),
            contents: contents.as_bytes().to_vec(),
        })
        .collect();
    source_hash("/src", &all)
}

#[test]
fn source_hash_is_stable_across_repeated_calls() {
    let files = [
        ("crates/asw-core/src/lib.rs", "fn a() {}"),
        ("Cargo.toml", "[workspace]"),
        ("Cargo.lock", "# lock"),
    ];
    let h1 = tree_hash(&files);
    let h2 = tree_hash(&files);
    assert_eq!(h1, h2, "hash must be stable across repeated calls");
    assert_eq!(h1.len(), 16);
}

#[test]
fn source_hash_changes_when_source_content_changes() {
    let before = tree_hash(&[
        ("crates/asw-core/src/lib.rs", "fn a() {}"),
        ("Cargo.toml", "[workspace]"),
        ("Cargo.lock", "# lock"),
    ]);
    let after = tree_hash(&[
        ("crates/asw-core/src/lib.rs", "fn a() { 1 }"),
        ("Cargo.toml", "[workspace]"),
        ("Cargo.lock", "# lock"),
    ]);
    assert_ne!(
        before, after,
        "hash must change when a source file's content changes"
    );
}

#[test]
fn source_hash_ignores_non_rs_files_outside_cargo_toml_lock() {
    let before = tree_hash(&[
        ("crates/asw-core/src/lib.rs", "fn a() {}"),
        ("Cargo.toml", "[workspace]"),
        ("Cargo.lock", "# lock"),
    ]);
    let after = tree_hash(&[
        ("crates/asw-core/src/lib.rs", "fn a() {}"),
        ("crates/asw-core/README.md", "docs change"),
        ("Cargo.toml", "[workspace]"),
        ("Cargo.lock", "# lock"),
    ]);
    assert_eq!(
        before, after,
        "non-.rs files (other than Cargo.toml/Cargo.lock) must not affect the hash"
    );
}

#[test]
fn moving_text_between_files_changes_the_hash() {
    assert_ne!(
        tree_hash(&[("crates/a.rs", "xy"), ("crates/b.rs", "")]),
        tree_hash(&[("crates/a.rs", "x"), ("crates/b.rs", "y")])
    );
}

#[test]
fn files_are_hashed_in_the_order_of_their_paths() {
    let listed = [
        ("crates/a/src/lib.rs", "a"),
        ("crates/a.rs", "b"),
        ("Cargo.toml", "[workspace]"),
        ("crates/note.txt", "c"),
        ("crates/a/b.rs", "d"),
    ];
    let mut turned = listed;
    turned.reverse();
    assert_eq!(tree_hash(&listed), tree_hash(&turned));
    turned.swap(0, 2);
    assert_eq!(tree_hash(&listed), tree_hash(&turned));
}

// Folding by hand, in the order of paths as a list of names.
#[test]
fn the_hash_is_that_of_the_standard_hasher() {
    let mut hasher = DefaultHasher::new();
    for (path, contents) in [
        ("/src/Cargo.toml", "[workspace]"),
        ("/src/crates/a/lib.rs", "a"),
        ("/src/crates/a.rs", "b"),
    ] {
        path.as_bytes().hash(&mut hasher);
        contents.as_bytes().to_vec().hash(&mut hasher);
    }
    let expected = format!("{:016x}", hasher.finish());
    let found = tree_hash(&[
        ("crates/a.rs", "b"),
        ("crates/a/lib.rs", "a"),
        ("Cargo.toml", "[workspace]"),
    ]);
    assert_eq!(found, expected);
}

#[test]
fn sources_of_a_workspace() {
    assert!(is_source("/w", "/w/crates/a/src/lib.rs"));
    assert!(is_source("/w", "/w/Cargo.toml") && is_source("/w", "/w/Cargo.lock"));
    assert!(!is_source("/w", "/w/crates/a/Cargo.toml"));
    assert!(!is_source("/w", "/w/crates/README.md"));
    assert!(!is_source("/w", "/w/src/lib.rs"));
    assert!(!is_source("/w", "/v/crates/lib.rs"));
    assert!(!is_source("/w", "/w/crates/.rs"));
}

#[test]
fn slugs_name_the_corners() {
    assert_eq!(bbox_slug(bbox(27.5, 36.0, 30.0, 37.0)), "27.5_36_30_37");
    assert_eq!(bbox_slug(bbox(-5.25, -0.5, 0.0, 0.125)), "-5.25_-0.5_0_0.125");
    assert_eq!(
        test_pipeline("", None).remote_graph_path(),
        "/data/asw/asw-full.graph"
    );
}

#[test]
fn named_areas() {
    assert_eq!(resolve_bbox("dev"), bbox(-5.0, 48.0, 10.0, 62.0));
    assert_eq!(resolve_bbox("dev-small"), bbox(-1.0, 50.0, 3.0, 52.0));
    assert_eq!(resolve_bbox("marmaris"), bbox(27.5, 36.0, 30.0, 37.0));
    assert_eq!(resolve_bbox("Marmaris"), None);
}

fn server(name: &str, ip: Option<&str>, state: &str) -> ServerInfo {
    ServerInfo {
        id: 42,
        name: name.to_string(),
        status: state.to_string(),
        public_net: PublicNet {
            ipv4: ip.map(|ip| Ipv4Info { ip: ip.to_string() }),
        },
    }
}

#[test]
fn servers_are_found_by_name() {
    let servers = vec![
        server("other", None, "running"),
        server("asw-builder", Some("10.0.0.1"), "initializing"),
    ];
    assert_eq!(find_server(&servers, HETZNER_SERVER_NAME), Some(1));
    assert_eq!(find_server(&servers, "none"), None);
    assert!(servers[0].is_running());
    assert!(!servers[1].is_running());
    assert_eq!(servers[0].ipv4(), None);
    assert_eq!(servers[1].ipv4(), Some("10.0.0.1"));
    assert_eq!(server_query("asw-builder"), "/servers?name=asw-builder");
    assert_eq!(server_path(7), "/servers/7");
}

#[test]
fn requests_name_the_place() {
    let r = create_request(9, 1);
    assert_eq!(r.name, "asw-builder");
    assert_eq!(r.image, HETZNER_IMAGE);
    assert_eq!(r.location, hetzner_location(1));
    assert_eq!(r.location, "fsn1");
    assert_eq!(r.ssh_keys, vec![9]);
    assert!(r.enable_ipv4);
    assert!(!r.enable_ipv6);
}

#[test]
fn a_closed_place_leads_to_the_next() {
    assert_eq!(
        after_refusal(0, "Server type UNAVAILABLE here"),
        CreateStep::Try(1)
    );
    assert_eq!(after_refusal(1, "location disabled"), CreateStep::Try(2));
    assert_eq!(after_refusal(2, "location disabled"), CreateStep::NoLocation);
    assert_eq!(after_refusal(0, "quota exceeded"), CreateStep::Refused);
    assert_eq!(next_place(0, "unavailable"), CreateStep::Try(1));
    assert_eq!(next_place(0, "UNAVAILABLE"), CreateStep::Refused);
}

#[test]
fn keys_are_told_apart_by_their_second_word() {
    assert_eq!(key_fingerprint("ssh-ed25519 AAAA me@here"), "AAAA");
    assert_eq!(key_fingerprint("lonely"), "lonely");
    let known = vec![
        SshKeyInfo {
            id: 1,
            name: "asw-a".to_string(),
            public_key: "ssh-ed25519 BBBB x".to_string(),
        },
        SshKeyInfo {
            id: 2,
            name: "asw-b".to_string(),
            public_key: "ssh-ed25519 AAAA y".to_string(),
        },
    ];
    match choose_ssh_key("ssh-ed25519 AAAA me@here\n", &known) {
        KeyChoice::Existing(id) => assert_eq!(id, 2),
        KeyChoice::Create { .. } => panic!("the key is known"),
    }
    match choose_ssh_key("ssh-ed25519 CCCC me@here\n", &known) {
        KeyChoice::Existing(_) => panic!("the key is new"),
        KeyChoice::Create { name, public_key } => {
            assert_eq!(
                name,
                format!("asw-me@here-{}", short_hash("ssh-ed25519 CCCC me@here"))
            );
            assert_eq!(public_key, "ssh-ed25519 CCCC me@here");
        }
    }
}

#[test]
fn short_hashes_are_short() {
    assert_eq!(short_hash("x"), short_hash("x"));
    assert_ne!(short_hash("x"), "x");
    assert!(short_hash("x").len() <= 4);
}

#[test]
fn provisioning_uses_what_is_there() {
    let up = server("asw-builder", Some("10.0.0.1"), "running");
    let bare = server("asw-builder", None, "running");
    assert!(matches!(provision(Some(&up), false), Ok(Provision::Use(ip)) if ip == "10.0.0.1"));
    assert!(matches!(
        provision(Some(&bare), true),
        Err(ProvisionError::ExistingWithoutAddress)
    ));
    assert!(matches!(provision(None, true), Ok(Provision::Create)));
    assert!(matches!(
        provision(None, false),
        Err(ProvisionError::NoPublicKey)
    ));
    assert!(matches!(created_address(&up), Ok(ip) if ip == "10.0.0.1"));
    assert!(matches!(
        created_address(&bare),
        Err(ProvisionError::NewWithoutAddress)
    ));
}

#[test]
fn teardown_and_status_name_the_server() {
    let up = server("asw-builder", Some("10.0.0.1"), "running");
    let bare = server("asw-builder", None, "off");
    assert_eq!(teardown(Some(&up)), Some((42, "10.0.0.1".to_string())));
    assert_eq!(teardown(Some(&bare)), Some((42, "?".to_string())));
    assert_eq!(teardown(None), None);
    assert_eq!(
        status(Some(&up)),
        Some((42, "10.0.0.1".to_string(), "running".to_string()))
    );
    assert_eq!(
        status(Some(&bare)),
        Some((42, String::new(), "off".to_string()))
    );
    assert_eq!(status(None), None);
}

#[test]
fn bootstrap_installs_packages() {
    let script = bootstrap();
    assert!(script.contains("osmium-tool"));
    assert!(script.contains("apt-get"));
}

#[test]
fn ssh_arguments() {
    let cfg = SshConfig::new("1.2.3.4".to_string(), "/k".to_string());
    assert_eq!(cfg.user, "root");
    assert_eq!(ssh_target(&cfg), "root@1.2.3.4");
    let base = ssh_base_args(&cfg);
    assert!(base.contains(&"/k".to_string()));
    let args = ssh_args(&cfg, "uptime");
    assert_eq!(args[..base.len()], base[..]);
    assert_eq!(args[base.len()..], ["root@1.2.3.4", "uptime"]);
    assert_eq!(
        scp_upload_args(&cfg, "a", "/b")[base.len()..],
        ["a", "root@1.2.3.4:/b"]
    );
    assert_eq!(
        scp_download_args(&cfg, "/b", "a")[base.len()..],
        ["root@1.2.3.4:/b", "a"]
    );
}

#[test]
fn the_first_key_that_is_there() {
    assert_eq!(
        find_ssh_key(Some("/home/me"), &|i: u8| i >= 1),
        Ok(ssh_key_candidate("/home/me", 1))
    );
    assert_eq!(
        ssh_key_candidate("/home/me", 0),
        "/home/me/.ssh/id_ed25519"
    );
    assert_eq!(find_ssh_key(Some("/home/me"), &|_| false), Err(KeyError::NoKey));
    assert_eq!(find_ssh_key(None, &|_| true), Err(KeyError::NoHome));
    assert!(wait_over(5001, 5000));
    assert!(!wait_over(5000, 5000));
}

fn nothing() -> Findings {
    Findings {
        source_matches: false,
        polygons_present: false,
        graph_present: false,
        output_size: None,
        marker_matches: false,
    }
}

#[test]
fn steps_run_unless_their_product_is_there() {
    let mut p = test_pipeline("asw.graph", None);
    let all = Findings {
        source_matches: true,
        polygons_present: true,
        graph_present: true,
        output_size: Some(1025),
        marker_matches: true,
    };
    let mut step = Step::Provision;
    let mut count = 0;
    loop {
        assert_eq!(p.run(step, &nothing()), StepAction::Run);
        assert_eq!(step.after(false), None);
        match step.after(true) {
            Some(next) => step = next,
            None => break,
        }
        count += 1;
        assert_eq!(step.number(), count);
    }
    assert_eq!(count, 6);
    assert_eq!(p.run(Step::Provision, &all), StepAction::Run);
    assert_eq!(p.run(Step::Compile, &all), StepAction::Cached);
    assert_eq!(p.run(Step::Download, &all), StepAction::Cached);
    assert_eq!(p.run(Step::Teardown, &all), StepAction::Run);
    p.host = Some("h".to_string());
    p.keep_server = true;
    assert_eq!(p.run(Step::Provision, &all), StepAction::Cached);
    assert_eq!(p.run(Step::Teardown, &all), StepAction::Skipped);
    let small = Findings {
        output_size: Some(1024),
        ..all
    };
    assert_eq!(p.run(Step::Download, &small), StepAction::Run);
}

#[test]
fn steps_are_announced() {
    assert_eq!(
        Step::Teardown.announce(StepAction::Skipped),
        format!("  [6/7] {}: skipped (--keep-server)", Step::Teardown.name())
    );
    assert_eq!(
        Step::Compile.announce(StepAction::Cached),
        format!("  [2/7] {}: cached", Step::Compile.name())
    );
    assert!(Step::Compile
        .announce(StepAction::Run)
        .ends_with(Step::Compile.description()));
}

#[test]
fn commands_on_the_server() {
    let p = test_pipeline("asw.graph", bbox(27.5, 36.0, 30.0, 37.0));
    assert_eq!(
        p.build_command(),
        "/usr/local/bin/asw build --shp /data/asw/land-polygons-split-4326 \
         --output /data/asw/asw-27.5_36_30_37.graph --bbox '27.5,36,30,37'"
    );
    assert_eq!(remote_hash_path(), "/data/asw/src.hash");
    assert!(read_marker_command().contains("/data/asw/src.hash"));
    assert!(write_marker_command("abc").contains("abc"));
    assert!(probe_command("-f", "/x").contains("/x"));
    assert!(source_matches("abc\n", "abc"));
    assert!(!source_matches("abd", "abc"));
    assert!(probe_answer("yes\n"));
    assert!(!probe_answer("no\n"));
}
