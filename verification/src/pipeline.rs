//! The cloud build: its steps, what of them is done already, and the commands
//! that they run.

use vstd::prelude::*;
use vstd::string::*;
use crate::bounds::Bbox;
use crate::config::{LAND_POLYGONS_URL, REMOTE_BIN, REMOTE_DATA_DIR, REMOTE_SRC_DIR};
use crate::notation::{is_numeric, lemma_nano_chars, lemma_nano_injective, lemma_split_unique};
use crate::path::{file_name, has_name, last_part, renamed, with_file_name};
use crate::ssh::SshConfig;
use crate::text::{
    decimal, nano_text, push_decimal, push_nano, same_text, trim_string, trimmed,
};

verus! {

/// A build on a cloud server.
pub struct Pipeline {
    pub host: Option<String>,
    pub ssh_key_path: String,
    pub output_path: String,
    pub keep_server: bool,
    pub hetzner_token: Option<String>,
    pub bbox: Option<Bbox>,
    pub rust_src_dir: String,
}

/// The coordinates of a box can be written down.
pub open spec fn writable(bbox: Option<Bbox>) -> bool {
    bbox matches Some(b) ==> {
        &&& b.min_lon > i64::MIN
        &&& b.min_lat > i64::MIN
        &&& b.max_lon > i64::MIN
        &&& b.max_lat > i64::MIN
    }
}

/// A number, a separator and what follows.
pub open spec fn field(a: Seq<char>, sep: char, rest: Seq<char>) -> Seq<char> {
    a.push(sep) + rest
}

/// The four coordinates of a box with `sep` between them.
pub open spec fn corners(b: Bbox, sep: char) -> Seq<char> {
    field(
        nano_text(b.min_lon as int),
        sep,
        field(
            nano_text(b.min_lat as int),
            sep,
            field(nano_text(b.max_lon as int), sep, nano_text(b.max_lat as int)),
        ),
    )
}

/// Text that stands for a box in file names.
pub open spec fn slug(bbox: Option<Bbox>) -> Seq<char> {
    match bbox {
        None => "full"@,
        Some(b) => corners(b, '_'),
    }
}

fn push_corners(out: &mut String, b: Bbox, sep: char)
    requires
        writable(Some(b)),
    ensures
        final(out)@ == old(out)@ + corners(b, sep),
{
    let ghost n3 = nano_text(b.max_lat as int);
    let ghost f2 = field(nano_text(b.max_lon as int), sep, n3);
    let ghost f1 = field(nano_text(b.min_lat as int), sep, f2);
    push_nano(out, b.min_lon);
    out.push(sep);
    assert(old(out)@ + corners(b, sep) =~= out@ + f1);
    let ghost o1 = out@;
    push_nano(out, b.min_lat);
    out.push(sep);
    assert(o1 + f1 =~= out@ + f2);
    let ghost o2 = out@;
    push_nano(out, b.max_lon);
    out.push(sep);
    assert(o2 + f2 =~= out@ + n3);
    push_nano(out, b.max_lat);
}

/// Text that stands for a box in the name of the remote graph and in the marker
/// next to the downloaded one.
pub fn bbox_slug(bbox: Option<Bbox>) -> (r: String)
    requires
        writable(bbox),
    ensures
        r@ == slug(bbox),
{
    match bbox {
        None => String::from_str("full"),
        Some(b) => {
            let mut out: String = String::new();
            push_corners(&mut out, b, '_');
            assert(out@ =~= corners(b, '_'));
            out
        },
    }
}

/// Boxes that differ have different slugs, so that what was built for one is
/// never taken for the other.
pub proof fn lemma_slug_injective(a: Option<Bbox>, b: Option<Bbox>)
    requires
        slug(a) == slug(b),
    ensures
        a == b,
{
    let numeric = |c: char| is_numeric(c);
    reveal_strlit("full");
    match (a, b) {
        (Some(x), Some(y)) => {
            lemma_corners_injective(x, y);
        },
        (Some(x), None) => {
            lemma_nano_chars(x.min_lon as int);
            assert(numeric(nano_text(x.min_lon as int)[0]));
            assert(slug(a)[0] == nano_text(x.min_lon as int)[0]);
            assert(slug(b)[0] == 'f');
        },
        (None, Some(y)) => {
            lemma_nano_chars(y.min_lon as int);
            assert(numeric(nano_text(y.min_lon as int)[0]));
            assert(slug(b)[0] == nano_text(y.min_lon as int)[0]);
            assert(slug(a)[0] == 'f');
        },
        (None, None) => {},
    }
}

proof fn lemma_corners_injective(x: Bbox, y: Bbox)
    requires
        corners(x, '_') == corners(y, '_'),
    ensures
        x == y,
{
    let x3 = nano_text(x.max_lat as int);
    let y3 = nano_text(y.max_lat as int);
    let x2 = field(nano_text(x.max_lon as int), '_', x3);
    let y2 = field(nano_text(y.max_lon as int), '_', y3);
    let x1 = field(nano_text(x.min_lat as int), '_', x2);
    let y1 = field(nano_text(y.min_lat as int), '_', y2);
    lemma_field_injective(x.min_lon as int, x1, y.min_lon as int, y1);
    lemma_field_injective(x.min_lat as int, x2, y.min_lat as int, y2);
    lemma_field_injective(x.max_lon as int, x3, y.max_lon as int, y3);
    lemma_nano_injective(x.max_lat as int, y.max_lat as int);
}

proof fn lemma_field_injective(a: int, rest_a: Seq<char>, b: int, rest_b: Seq<char>)
    requires
        field(nano_text(a), '_', rest_a) == field(nano_text(b), '_', rest_b),
    ensures
        a == b,
        rest_a == rest_b,
{
    lemma_nano_chars(a);
    lemma_nano_chars(b);
    let ra = seq!['_'] + rest_a;
    let rb = seq!['_'] + rest_b;
    assert(field(nano_text(a), '_', rest_a) =~= nano_text(a) + ra);
    assert(field(nano_text(b), '_', rest_b) =~= nano_text(b) + rb);
    lemma_split_unique(nano_text(a), ra, nano_text(b), rb, |c: char| is_numeric(c));
    lemma_nano_injective(a, b);
    assert(ra.skip(1) =~= rest_a);
    assert(rb.skip(1) =~= rest_b);
}

/// Path of the marker that says for which box a file was made.
pub open spec fn sidecar(output: Seq<char>) -> Seq<char> {
    let name = if has_name(output) {
        last_part(output)
    } else {
        Seq::empty()
    };
    renamed(output, name + ".bbox"@)
}

/// Path of the marker next to the output: its name with `.bbox` behind.
pub fn bbox_sidecar_path(output_path: &str) -> (r: String)
    ensures
        r@ == sidecar(output_path@),
{
    let mut name: String = match file_name(output_path) {
        Some(n) => n,
        None => String::new(),
    };
    name.append(".bbox");
    with_file_name(output_path, name.as_str())
}

/// Path on the server of the marker that says which source was compiled.
pub fn remote_hash_path() -> (r: String)
    ensures
        r@ == REMOTE_DATA_DIR@ + "/src.hash"@,
{
    let mut out: String = String::from_str(REMOTE_DATA_DIR);
    out.append("/src.hash");
    out
}

/// A step of the build.
#[derive(Debug, Clone, Copy, PartialEq, Eq)]
pub enum Step {
    Provision,
    UploadSrc,
    Compile,
    DownloadShp,
    BuildGraph,
    Download,
    Teardown,
}

/// What is done about a step.
#[derive(Debug, Clone, Copy, PartialEq, Eq)]
pub enum StepAction {
    /// Nothing: what it makes is there already.
    Cached,
    /// Nothing: the server is to be kept.
    Skipped,
    Run,
}

impl Step {
    /// Place of the step in the build.
    pub open spec fn index(self) -> nat {
        match self {
            Step::Provision => 0,
            Step::UploadSrc => 1,
            Step::Compile => 2,
            Step::DownloadShp => 3,
            Step::BuildGraph => 4,
            Step::Download => 5,
            Step::Teardown => 6,
        }
    }

    /// Name of the step.
    pub open spec fn label(self) -> Seq<char> {
        match self {
            Step::Provision => "provision"@,
            Step::UploadSrc => "upload_src"@,
            Step::Compile => "compile"@,
            Step::DownloadShp => "download_shp"@,
            Step::BuildGraph => "build_graph"@,
            Step::Download => "download"@,
            Step::Teardown => "teardown"@,
        }
    }

    /// What the step does, in words.
    pub open spec fn words(self) -> Seq<char> {
        match self {
            Step::Provision => "Create Hetzner server"@,
            Step::UploadSrc => "Upload Rust source to server"@,
            Step::Compile => "Install Rust + compile on server"@,
            Step::DownloadShp => "Download land polygons on server"@,
            Step::BuildGraph => "Run asw build on server"@,
            Step::Download => "Download graph to local machine"@,
            Step::Teardown => "Delete Hetzner server"@,
        }
    }

    /// Computes [`Step::index`].
    pub fn number(self) -> (r: u64)
        ensures
            r == self.index(),
    {
        match self {
            Step::Provision => 0,
            Step::UploadSrc => 1,
            Step::Compile => 2,
            Step::DownloadShp => 3,
            Step::BuildGraph => 4,
            Step::Download => 5,
            Step::Teardown => 6,
        }
    }

    /// Computes [`Step::label`].
    pub fn name(self) -> (r: &'static str)
        ensures
            r@ == self.label(),
    {
        match self {
            Step::Provision => "provision",
            Step::UploadSrc => "upload_src",
            Step::Compile => "compile",
            Step::DownloadShp => "download_shp",
            Step::BuildGraph => "build_graph",
            Step::Download => "download",
            Step::Teardown => "teardown",
        }
    }

    /// Computes [`Step::words`].
    pub fn description(self) -> (r: &'static str)
        ensures
            r@ == self.words(),
    {
        match self {
            Step::Provision => "Create Hetzner server",
            Step::UploadSrc => "Upload Rust source to server",
            Step::Compile => "Install Rust + compile on server",
            Step::DownloadShp => "Download land polygons on server",
            Step::BuildGraph => "Run asw build on server",
            Step::Download => "Download graph to local machine",
            Step::Teardown => "Delete Hetzner server",
        }
    }

    /// The step behind this one.
    pub open spec fn successor(self) -> Option<Step> {
        match self {
            Step::Provision => Some(Step::UploadSrc),
            Step::UploadSrc => Some(Step::Compile),
            Step::Compile => Some(Step::DownloadShp),
            Step::DownloadShp => Some(Step::BuildGraph),
            Step::BuildGraph => Some(Step::Download),
            Step::Download => Some(Step::Teardown),
            Step::Teardown => None,
        }
    }

    /// The step that follows on this one. None does where it failed, nor behind
    /// the last; one that was cached or skipped went well.
    pub open spec fn following(self, went_well: bool) -> Option<Step> {
        if went_well {
            self.successor()
        } else {
            None
        }
    }

    /// Computes [`Step::following`].
    pub fn after(self, went_well: bool) -> (r: Option<Step>)
        ensures
            r == self.following(went_well),
            !went_well ==> r is None,
            went_well ==> match r {
                Some(s) => s.index() == self.index() + 1,
                None => self == Step::Teardown,
            },
    {
        if !went_well {
            return None;
        }
        match self {
            Step::Provision => Some(Step::UploadSrc),
            Step::UploadSrc => Some(Step::Compile),
            Step::Compile => Some(Step::DownloadShp),
            Step::DownloadShp => Some(Step::BuildGraph),
            Step::BuildGraph => Some(Step::Download),
            Step::Download => Some(Step::Teardown),
            Step::Teardown => None,
        }
    }

    /// Start of the lines about the step.
    pub open spec fn head(self) -> Seq<char> {
        "  ["@ + decimal(self.index()) + "/7] "@ + self.label() + ": "@
    }

    /// A line about the step: `note` behind its number and name.
    pub fn line(self, note: &str) -> (r: String)
        ensures
            r@ == self.head() + note@,
    {
        let mut out: String = String::from_str("  [");
        push_decimal(&mut out, self.number());
        out.append("/7] ");
        out.append(self.name());
        out.append(": ");
        out.append(note);
        out
    }

    /// The line for what is done about the step.
    pub open spec fn report(self, action: StepAction) -> Seq<char> {
        match action {
            StepAction::Cached => self.head() + "cached"@,
            StepAction::Skipped => self.head() + "skipped (--keep-server)"@,
            StepAction::Run => self.head() + ("running — "@ + self.words()),
        }
    }

    /// Computes [`Step::report`].
    pub fn announce(self, action: StepAction) -> (r: String)
        ensures
            r@ == self.report(action),
    {
        match action {
            StepAction::Cached => self.line("cached"),
            StepAction::Skipped => self.line("skipped (--keep-server)"),
            StepAction::Run => {
                let mut note: String = String::from_str("running — ");
                note.append(self.description());
                self.line(note.as_str())
            },
        }
    }
}

/// What was found out about a build before a step.
pub struct Findings {
    /// The server's marker shows the hash of the source here.
    pub source_matches: bool,
    /// The land polygons are on the server.
    pub polygons_present: bool,
    /// The graph for this box is on the server.
    pub graph_present: bool,
    /// Size of the output file here, where there is one.
    pub output_size: Option<u64>,
    /// The marker next to the output is that of this box.
    pub marker_matches: bool,
}

/// Size above which an output file can be a graph.
pub const MIN_OUTPUT_SIZE: u64 = 1024;

impl Pipeline {
    /// What the step makes is there already. Source and program count only
    /// together: a program that runs need not come from this source.
    pub open spec fn is_cached(&self, step: Step, f: Findings) -> bool {
        match step {
            Step::Provision => self.host is Some,
            Step::UploadSrc => f.source_matches,
            Step::Compile => f.source_matches,
            Step::DownloadShp => f.polygons_present,
            Step::BuildGraph => f.graph_present,
            Step::Download => f.marker_matches && (f.output_size matches Some(n) && n
                > MIN_OUTPUT_SIZE),
            Step::Teardown => false,
        }
    }

    /// What is done about a step.
    pub open spec fn action(&self, step: Step, f: Findings) -> StepAction {
        if step == Step::Teardown && self.keep_server {
            StepAction::Skipped
        } else if self.is_cached(step, f) {
            StepAction::Cached
        } else {
            StepAction::Run
        }
    }

    /// Decides about a step.
    pub fn run(&self, step: Step, f: &Findings) -> (r: StepAction)
        ensures
            r == self.action(step, *f),
    {
        let cached: bool = match step {
            Step::Provision => self.host.is_some(),
            Step::UploadSrc => f.source_matches,
            Step::Compile => f.source_matches,
            Step::DownloadShp => f.polygons_present,
            Step::BuildGraph => f.graph_present,
            Step::Download => match f.output_size {
                Some(n) => f.marker_matches && n > MIN_OUTPUT_SIZE,
                None => false,
            },
            Step::Teardown => {
                if self.keep_server {
                    return StepAction::Skipped;
                }
                false
            },
        };
        if cached {
            StepAction::Cached
        } else {
            StepAction::Run
        }
    }

    /// How to reach the server of the build.
    pub fn ssh_cfg(&self) -> (r: SshConfig)
        ensures
            r.host@ == match self.host {
                Some(h) => h@,
                None => ""@,
            },
            r.user@ == "root"@,
            r.key_path@ == self.ssh_key_path@,
    {
        let host: String = match &self.host {
            Some(h) => h.clone(),
            None => String::from_str(""),
        };
        SshConfig::new(host, self.ssh_key_path.clone())
    }

    /// Where the graph of this box goes on the server.
    pub open spec fn graph_path(&self) -> Seq<char> {
        REMOTE_DATA_DIR@ + "/asw-"@ + slug(self.bbox) + ".graph"@
    }

    /// Computes [`Pipeline::graph_path`].
    pub fn remote_graph_path(&self) -> (r: String)
        requires
            writable(self.bbox),
        ensures
            r@ == self.graph_path(),
    {
        let mut out: String = String::from_str(REMOTE_DATA_DIR);
        out.append("/asw-");
        let s = bbox_slug(self.bbox);
        out.append(s.as_str());
        out.append(".graph");
        out
    }

    /// Whether the marker next to the output, where there is one, is that of
    /// this box.
    pub fn local_download_cache_matches(&self, marker: Option<&str>) -> (r: bool)
        requires
            writable(self.bbox),
        ensures
            r == (marker matches Some(text) && trimmed(text@) == slug(self.bbox)),
    {
        match marker {
            Some(text) => {
                let t = trim_string(text);
                let s = bbox_slug(self.bbox);
                same_text(t.as_str(), s.as_str())
            },
            None => false,
        }
    }

    /// The command that builds the graph on the server.
    pub open spec fn build_text(&self) -> Seq<char> {
        let cmd = REMOTE_BIN@ + " build --shp "@ + REMOTE_DATA_DIR@
            + "/land-polygons-split-4326"@ + " --output "@ + self.graph_path();
        match self.bbox {
            Some(b) => cmd + " --bbox '"@ + corners(b, ',') + "'"@,
            None => cmd,
        }
    }

    /// Computes [`Pipeline::build_text`].
    pub fn build_command(&self) -> (r: String)
        requires
            writable(self.bbox),
        ensures
            r@ == self.build_text(),
    {
        let mut cmd: String = String::from_str(REMOTE_BIN);
        cmd.append(" build --shp ");
        cmd.append(REMOTE_DATA_DIR);
        cmd.append("/land-polygons-split-4326");
        cmd.append(" --output ");
        let path = self.remote_graph_path();
        cmd.append(path.as_str());
        if let Some(b) = self.bbox {
            cmd.append(" --bbox '");
            push_corners(&mut cmd, b, ',');
            cmd.append("'");
        }
        cmd
    }
}

/// The step that a build comes to after `k` outcomes, if it gets that far.
pub open spec fn step_at(outcomes: Seq<bool>, k: int) -> Option<Step>
    decreases k,
{
    if k <= 0 {
        Some(Step::Provision)
    } else {
        match step_at(outcomes, k - 1) {
            Some(step) => step.following(outcomes[k - 1]),
            None => None,
        }
    }
}

/// The steps come in their order, and each only if all before it went well: the
/// first failure ends the build.
pub proof fn lemma_first_failure_ends(outcomes: Seq<bool>, k: int)
    requires
        0 <= k <= outcomes.len(),
    ensures
        step_at(outcomes, k) matches Some(step) ==> step.index() == k,
        step_at(outcomes, k) is Some <==> k <= 6 && forall|j: int|
            0 <= j < k ==> #[trigger] outcomes[j],
    decreases k,
{
    if k > 0 {
        lemma_first_failure_ends(outcomes, k - 1);
        if step_at(outcomes, k) is Some {
            assert(outcomes[k - 1]);
        }
        if forall|j: int| 0 <= j < k ==> #[trigger] outcomes[j] {
            assert(outcomes[k - 1]);
            assert(forall|j: int| 0 <= j < k - 1 ==> #[trigger] outcomes[j]);
        }
    }
}

/// The server is torn down if and only if nothing failed before and it is not to
/// be kept, whatever was found.
pub proof fn lemma_teardown(p: &Pipeline, f: Findings, outcomes: Seq<bool>)
    requires
        outcomes.len() >= 6,
    ensures
        (step_at(outcomes, 6) == Some(Step::Teardown) && p.action(Step::Teardown, f)
            == StepAction::Run) <==> !p.keep_server && forall|j: int|
            0 <= j < 6 ==> #[trigger] outcomes[j],
{
    lemma_first_failure_ends(outcomes, 6);
}

/// Source and program are taken as they are together or not at all, and a server
/// is asked for exactly where there is no host yet. Land polygons and graph on the
/// server are taken where they are there, and the graph here where it was made for
/// this box and is more than a stub. Only the end of the server can be skipped.
pub proof fn lemma_what_is_skipped(p: &Pipeline, f: Findings)
    ensures
        p.action(Step::UploadSrc, f) == p.action(Step::Compile, f),
        p.action(Step::UploadSrc, f) == StepAction::Cached <==> f.source_matches,
        p.action(Step::Provision, f) == StepAction::Cached <==> p.host is Some,
        p.action(Step::DownloadShp, f) == StepAction::Cached <==> f.polygons_present,
        p.action(Step::BuildGraph, f) == StepAction::Cached <==> f.graph_present,
        p.action(Step::Download, f) == StepAction::Cached <==> f.marker_matches && (
        f.output_size matches Some(n) && n > 1024),
        p.action(Step::Teardown, f) == StepAction::Skipped <==> p.keep_server,
        forall|step: Step| #[trigger]
            p.action(step, f) == StepAction::Skipped ==> step == Step::Teardown,
{
}

/// Graphs for different boxes have different paths on the server.
pub proof fn lemma_graph_path_tells_boxes_apart(a: &Pipeline, b: &Pipeline)
    requires
        a.graph_path() == b.graph_path(),
    ensures
        a.bbox == b.bbox,
{
    let head = REMOTE_DATA_DIR@ + "/asw-"@;
    let tail = ".graph"@;
    let x = a.graph_path();
    let y = b.graph_path();
    let n = head.len() as int;
    assert(x.len() == n + slug(a.bbox).len() + tail.len());
    assert(y.len() == n + slug(b.bbox).len() + tail.len());
    assert(slug(a.bbox) =~= x.subrange(n, n + slug(a.bbox).len()));
    assert(slug(b.bbox) =~= y.subrange(n, n + slug(b.bbox).len()));
    lemma_slug_injective(a.bbox, b.bbox);
}

/// A marker that was written for one box is not taken for another.
pub proof fn lemma_marker_tells_boxes_apart(a: &Pipeline, b: &Pipeline, marker: Seq<char>)
    requires
        trimmed(marker) == slug(a.bbox),
        trimmed(marker) == slug(b.bbox),
    ensures
        a.bbox == b.bbox,
{
    lemma_slug_injective(a.bbox, b.bbox);
}

/// Whether the marker on the server shows the hash of the source here.
pub fn source_matches(remote_marker: &str, local_hash: &str) -> (r: bool)
    ensures
        r == (trimmed(remote_marker@) == local_hash@),
{
    let t = trim_string(remote_marker);
    same_text(t.as_str(), local_hash)
}

/// The command that asks whether a file (`-f`) or directory (`-d`) exists.
pub fn probe_command(kind: &str, path: &str) -> (r: String)
    ensures
        r@ == "test "@ + kind@ + " "@ + path@ + " && echo yes || echo no"@,
{
    let mut out: String = String::from_str("test ");
    out.append(kind);
    out.append(" ");
    out.append(path);
    out.append(" && echo yes || echo no");
    out
}

/// Whether the answer to a probe is yes.
pub fn probe_answer(output: &str) -> (r: bool)
    ensures
        r == (trimmed(output@) == "yes"@),
{
    let t = trim_string(output);
    same_text(t.as_str(), "yes")
}

/// The command that shows the source marker, or nothing.
pub fn read_marker_command() -> (r: String)
    ensures
        r@ == "cat "@ + (REMOTE_DATA_DIR@ + "/src.hash"@) + " 2>/dev/null || true"@,
{
    let mut out: String = String::from_str("cat ");
    let path = remote_hash_path();
    out.append(path.as_str());
    out.append(" 2>/dev/null || true");
    out
}

/// The command that writes the source marker.
pub fn write_marker_command(hash: &str) -> (r: String)
    ensures
        r@ == "mkdir -p "@ + REMOTE_DATA_DIR@ + " && echo '"@ + hash@ + "' > "@ + (REMOTE_DATA_DIR@
            + "/src.hash"@),
{
    let mut out: String = String::from_str("mkdir -p ");
    out.append(REMOTE_DATA_DIR);
    out.append(" && echo '");
    out.append(hash);
    out.append("' > ");
    let path = remote_hash_path();
    out.append(path.as_str());
    out
}

/// The command that makes a directory.
pub fn mkdir_command(dir: &str) -> (r: String)
    ensures
        r@ == "mkdir -p "@ + dir@,
{
    let mut out: String = String::from_str("mkdir -p ");
    out.append(dir);
    out
}

/// The command that unpacks the uploaded source.
pub fn unpack_command() -> (r: String)
    ensures
        r@ == "tar xzf /tmp/asw-src.tar.gz -C "@ + REMOTE_SRC_DIR@ + " && rm /tmp/asw-src.tar.gz"@,
{
    let mut out: String = String::from_str("tar xzf /tmp/asw-src.tar.gz -C ");
    out.append(REMOTE_SRC_DIR);
    out.append(" && rm /tmp/asw-src.tar.gz");
    out
}

/// The command that compiles the program on the server.
pub fn compile_command() -> (r: String)
    ensures
        r@ == "export PATH=\"$HOME/.cargo/bin:$PATH\" && cd "@ + REMOTE_SRC_DIR@
            + " && cargo build --release -p asw-cli 2>&1"@,
{
    let mut out: String = String::from_str("export PATH=\"$HOME/.cargo/bin:$PATH\" && cd ");
    out.append(REMOTE_SRC_DIR);
    out.append(" && cargo build --release -p asw-cli 2>&1");
    out
}

/// The command that puts the compiled program into place.
pub fn link_command() -> (r: String)
    ensures
        r@ == "ln -sf "@ + REMOTE_SRC_DIR@ + "/target/release/asw "@ + REMOTE_BIN@,
{
    let mut out: String = String::from_str("ln -sf ");
    out.append(REMOTE_SRC_DIR);
    out.append("/target/release/asw ");
    out.append(REMOTE_BIN);
    out
}

/// The command that fetches the land polygons to the server.
pub fn polygons_command() -> (r: String)
    ensures
        r@ == "cd "@ + REMOTE_DATA_DIR@
            + " && wget -q --show-progress -O land-polygons-split-4326.zip '"@
            + LAND_POLYGONS_URL@
            + "' && unzip -o land-polygons-split-4326.zip && rm -f land-polygons-split-4326.zip"@,
{
    let mut out: String = String::from_str("cd ");
    out.append(REMOTE_DATA_DIR);
    out.append(" && wget -q --show-progress -O land-polygons-split-4326.zip '");
    out.append(LAND_POLYGONS_URL);
    out.append("' && unzip -o land-polygons-split-4326.zip && rm -f land-polygons-split-4326.zip");
    out
}

} // verus!
