use vstd::prelude::*;
use vstd::string::StringSliceAdditionalSpecFns;
use crate::decimal::{Reading, well_formed, denotes};

verus! {

/// The expression that finds the reading: the marker, then the longest signed
/// decimal literal that starts right after it.
pub const MARKER_REGEX: &'static str = "id=\"s215\">([+-]?([0-9]+([.][0-9]*)?|[.][0-9]+))";

/// The bytes of the marker `id="s215">`.
pub open spec fn marker() -> Seq<u8> {
    seq![105u8, 100u8, 61u8, 34u8, 115u8, 50u8, 49u8, 53u8, 34u8, 62u8]
}

pub open spec fn marker_at(b: Seq<u8>, i: int) -> bool {
    0 <= i && i + marker().len() <= b.len() && b.subrange(i, i + marker().len()) == marker()
}

pub open spec fn has_marker(b: Seq<u8>) -> bool {
    exists|i: int| marker_at(b, i)
}

/// `b[s..e]` is a signed decimal literal.
pub open spec fn literal_at(b: Seq<u8>, s: int, e: int) -> bool {
    0 <= s <= e <= b.len() && well_formed(b.subrange(s, e))
}

/// `b[s..e]` is the longest signed decimal literal that starts at `s`.
pub open spec fn longest_literal(b: Seq<u8>, s: int, e: int) -> bool {
    &&& literal_at(b, s, e)
    &&& forall|e2: int| e < e2 <= b.len() ==> !#[trigger] literal_at(b, s, e2)
}

/// The marker stands at `i` and a signed decimal literal follows it.
pub open spec fn marker_with_literal(b: Seq<u8>, i: int) -> bool {
    marker_at(b, i) && exists|e: int| #[trigger] literal_at(b, i + marker().len(), e)
}

pub open spec fn has_marker_with_literal(b: Seq<u8>) -> bool {
    exists|i: int| #[trigger] marker_with_literal(b, i)
}

/// `b[s..e]` is the text that the reading is taken from: the longest literal
/// after the first marker that a literal follows.
pub open spec fn captured(b: Seq<u8>, s: int, e: int) -> bool {
    &&& marker_with_literal(b, s - marker().len())
    &&& forall|j: int| 0 <= j < s - marker().len() ==> !#[trigger] marker_with_literal(b, j)
    &&& longest_literal(b, s, e)
}

/// Why no reading came out of a page.
#[derive(Debug, Clone, Copy, PartialEq, Eq, Structural)]
pub enum ExtractError {
    /// The page holds no marker.
    PatternNotFound,
    /// The page holds the marker, but no signed decimal follows it.
    NumberParseError,
}

impl ExtractError {
    /// A description for people.
    pub fn description(&self) -> (r: &'static str)
        ensures
            self is PatternNotFound ==> r@ == "Temperature regex failed"@,
            self is NumberParseError ==> r@ == "Cannot parse temperature"@,
    {
        match self {
            ExtractError::PatternNotFound => "Temperature regex failed",
            ExtractError::NumberParseError => "Cannot parse temperature",
        }
    }
}

/// Relies on regex::Regex::new and Regex::captures, on the expression
/// `MARKER_REGEX`: the leftmost match starts at the first marker that a literal
/// follows, and the expression's leftmost-first alternation with greedy
/// repetition takes the longest literal there. The result is group 1's byte range.
#[verifier::external_body]
fn marker_capture(pattern: &str, text: &str) -> (r: Option<(usize, usize)>)
    requires
        pattern@ == MARKER_REGEX@,
    ensures
        r is None <==> !has_marker_with_literal(text.spec_bytes()),
        r matches Some((s, e)) ==> captured(text.spec_bytes(), s as int, e as int),
{
    match regex::Regex::new(pattern) {
        Ok(re) => re.captures(text).and_then(|c| c.get(1)).map(|m| (m.start(), m.end())),
        Err(_) => None,
    }
}

/// Whether the marker stands at `b[i..]`.
fn marker_at_index(b: &[u8], i: usize) -> (r: bool)
    requires
        i + marker().len() <= b@.len(),
    ensures
        r == marker_at(b@, i as int),
{
    let r = b[i] == 105 && b[i + 1] == 100 && b[i + 2] == 61 && b[i + 3] == 34 && b[i + 4] == 115
        && b[i + 5] == 50 && b[i + 6] == 49 && b[i + 7] == 53 && b[i + 8] == 34 && b[i + 9] == 62;
    proof {
        let w = b@.subrange(i as int, i + 10);
        if r {
            assert(w =~= marker());
        } else if w == marker() {
            assert(w[0] == 105 && w[1] == 100 && w[2] == 61 && w[3] == 34 && w[4] == 115);
            assert(w[5] == 50 && w[6] == 49 && w[7] == 53 && w[8] == 34 && w[9] == 62);
        }
    }
    r
}

/// Whether the marker occurs anywhere in `b`.
fn find_marker(b: &[u8]) -> (r: bool)
    ensures
        r == has_marker(b@),
{
    if b.len() < 10 {
        return false;
    }
    let last = b.len() - 10;
    let mut i: usize = 0;
    while i <= last
        invariant
            last + 10 == b@.len(),
            forall|j: int| 0 <= j < i ==> !#[trigger] marker_at(b@, j),
        decreases last + 1 - i,
    {
        if marker_at_index(b, i) {
            return true;
        }
        if i == last {
            return false;
        }
        i = i + 1;
    }
    false
}

/// Finds the first marker in `text` that a signed decimal follows, and reads
/// the longest such decimal there; whatever comes after it is ignored.
pub fn extract(text: &str) -> (r: Result<Reading, ExtractError>)
    ensures
        r matches Err(ExtractError::PatternNotFound) <==> !has_marker(text.spec_bytes()),
        r matches Err(ExtractError::NumberParseError) <==> has_marker(text.spec_bytes())
            && !has_marker_with_literal(text.spec_bytes()),
        r is Ok <==> has_marker_with_literal(text.spec_bytes()),
        forall|s: int, e: int| #[trigger]
            captured(text.spec_bytes(), s, e) ==> (r matches Ok(v) && denotes(
                text.spec_bytes().subrange(s, e),
                v@,
            )),
{
    let bytes = text.as_bytes();
    let ghost b = text.spec_bytes();
    match marker_capture(MARKER_REGEX, text) {
        None => {
            proof {
                if has_marker_with_literal(b) {
                    let i = choose|i: int| #[trigger] marker_with_literal(b, i);
                    assert(marker_at(b, i));
                }
            }
            if find_marker(bytes) {
                Err(ExtractError::NumberParseError)
            } else {
                Err(ExtractError::PatternNotFound)
            }
        },
        Some((s, e)) => {
            proof {
                assert(marker_with_literal(b, s - marker().len()));
                assert(has_marker_with_literal(b));
                assert(marker_at(b, s - marker().len()));
                assert forall|s2: int, e2: int| #[trigger]
                    captured(b, s2, e2) implies s2 == s && e2 == e by {
                    let i0 = s - marker().len();
                    let i = s2 - marker().len();
                    if i < i0 {
                        assert(!marker_with_literal(b, i));
                    } else if i0 < i {
                        assert(!marker_with_literal(b, i0));
                    }
                    assert(i == i0);
                    if e2 < e {
                        assert(!literal_at(b, s2, e as int));
                    } else if e < e2 {
                        assert(!literal_at(b, s as int, e2));
                    }
                };
            }
            match Reading::parse_range(bytes, s, e) {
                Some(v) => Ok(v),
                None => Err(ExtractError::NumberParseError),
            }
        },
    }
}

} // verus!
