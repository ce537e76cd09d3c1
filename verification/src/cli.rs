//! Arguments of the command line.

use vstd::prelude::*;
use vstd::string::*;
use crate::bounds::Bbox;
use crate::config::{named_area, resolve_bbox};
use crate::ssh::KeyError;
use crate::text::{
    chars_of, decimal, find_char, position_of, push_decimal, string_of, strings, trim_range,
    trim_string, trimmed,
};

verus! {

/// Why a box cannot be used.
#[derive(Debug, Clone, Copy, PartialEq, Eq)]
pub enum BboxError {
    /// A part is not a number.
    NotNumbers,
    /// There are not four parts.
    WrongCount,
}

impl BboxError {
    pub open spec fn text(self) -> Seq<char> {
        match self {
            BboxError::NotNumbers =>
                "bbox must be 4 comma-separated floats: min_lon,min_lat,max_lon,max_lat"@,
            BboxError::WrongCount => "bbox must have exactly 4 values"@,
        }
    }

    pub fn message(self) -> (r: &'static str)
        ensures
            r@ == self.text(),
    {
        match self {
            BboxError::NotNumbers =>
                "bbox must be 4 comma-separated floats: min_lon,min_lat,max_lon,max_lat",
            BboxError::WrongCount => "bbox must have exactly 4 values",
        }
    }
}

/// The parts of `s` from `from` on, which commas separate, without white space
/// around each.
pub open spec fn fields(s: Seq<char>, from: int) -> Seq<Seq<char>>
    decreases s.len() - from,
{
    let end = position_of(s, ',', from);
    if from < 0 || from > s.len() || end < from {
        Seq::empty()
    } else if end < s.len() {
        seq![trimmed(s.subrange(from, end))] + fields(s, end + 1)
    } else {
        seq![trimmed(s.subrange(from, end))]
    }
}

/// Takes a box apart into the texts of its numbers.
pub fn bbox_fields(s: &str) -> (r: Vec<String>)
    ensures
        strings(r@) == fields(s@, 0),
{
    let chars = chars_of(s);
    let mut out: Vec<String> = Vec::new();
    let mut from: usize = 0;
    assert(strings(out@) =~= Seq::<Seq<char>>::empty());
    loop
        invariant
            chars@ == s@,
            from <= chars@.len(),
            strings(out@) + fields(s@, from as int) == fields(s@, 0),
        decreases chars@.len() - from,
    {
        let end: usize = find_char(&chars, ',', from);
        let (a, b): (usize, usize) = trim_range(&chars, from, end);
        let ghost before = strings(out@);
        let field = string_of(&chars, a, b);
        let ghost text = field@;
        out.push(field);
        assert(strings(out@) =~= before.push(text));
        if end >= chars.len() {
            assert(strings(out@) =~= before + seq![text]);
            return out;
        }
        assert(strings(out@) + fields(s@, end + 1) =~= before + (seq![text] + fields(s@, end + 1)));
        from = end + 1;
    }
}

/// The box that an argument means: that of its name, or else the one of the
/// four numbers that its parts are. `None` stands for a part that is no number.
pub open spec fn bbox_of(s: Seq<char>, numbers: Seq<Option<i64>>) -> Result<Bbox, BboxError> {
    if named_area(s) is Some {
        Ok(named_area(s)->Some_0)
    } else if exists|i: int| 0 <= i < numbers.len() && #[trigger] numbers[i] is None {
        Err(BboxError::NotNumbers)
    } else if numbers.len() != 4 {
        Err(BboxError::WrongCount)
    } else {
        Ok(
            (Bbox {
                min_lon: numbers[0]->Some_0,
                min_lat: numbers[1]->Some_0,
                max_lon: numbers[2]->Some_0,
                max_lat: numbers[3]->Some_0,
            }),
        )
    }
}

/// Computes [`bbox_of`]; `numbers` are what the parts of `s` hold, as
/// [`bbox_fields`] gives them.
pub fn parse_bbox(s: &str, numbers: &Vec<Option<i64>>) -> (r: Result<Bbox, BboxError>)
    ensures
        r == bbox_of(s@, numbers@),
{
    match resolve_bbox(s) {
        Some(b) => return Ok(b),
        None => {},
    }
    let mut i: usize = 0;
    while i < numbers.len()
        invariant
            named_area(s@) is None,
            i <= numbers@.len(),
            forall|k: int| 0 <= k < i ==> #[trigger] numbers@[k] is Some,
        decreases numbers@.len() - i,
    {
        if numbers[i].is_none() {
            return Err(BboxError::NotNumbers);
        }
        i = i + 1;
    }
    if numbers.len() != 4 {
        return Err(BboxError::WrongCount);
    }
    match (numbers[0], numbers[1], numbers[2], numbers[3]) {
        (Some(min_lon), Some(min_lat), Some(max_lon), Some(max_lat)) => Ok(
            Bbox { min_lon, min_lat, max_lon, max_lat },
        ),
        _ => Err(BboxError::NotNumbers),
    }
}

/// The key to use: the one asked for, else the one that was found.
pub fn resolve_ssh_key(ssh_key: Option<String>, found: Result<String, KeyError>) -> (r: Result<
    String,
    KeyError,
>)
    ensures
        r == match ssh_key {
            Some(path) => Ok(path),
            None => found,
        },
{
    match ssh_key {
        Some(path) => Ok(path),
        None => found,
    }
}

/// The API key to serve with, without white space around it; none where
/// nothing is left.
pub fn serving_key(api_key: &str) -> (r: Option<String>)
    ensures
        match r {
            Some(key) => key@ == trimmed(api_key@) && key@.len() > 0,
            None => trimmed(api_key@).len() == 0,
        },
{
    let key = trim_string(api_key);
    if key.as_str().is_empty() {
        None
    } else {
        Some(key)
    }
}

/// The address to listen on.
pub fn listen_address(host: &str, port: u16) -> (r: String)
    ensures
        r@ == host@.push(':') + decimal(port as nat),
{
    let mut out = String::from_str(host);
    out.push(':');
    push_decimal(&mut out, port as u64);
    out
}

/// Where to ask whether the server is ready.
pub fn ready_url(host: &str, port: u16) -> (r: String)
    ensures
        r@ == "http://"@ + (host@.push(':') + decimal(port as nat)) + "/ready"@,
{
    let mut out = String::from_str("http://");
    out.append(listen_address(host, port).as_str());
    out.append("/ready");
    out
}

} // verus!
