//! Stub platform: a window source for running without OS automation. It
//! answers pattern queries with canned windows, so the orchestrator and the
//! control surface can be exercised on any machine.

use vstd::prelude::*;

use crate::logger::{info_p, logged, lookup_color, Logger};

verus! {

/// What lowercasing a string yields. The result depends on the characters
/// alone.
pub uninterp spec fn lower_of(s: Seq<char>) -> Seq<char>;

/// Relies on str::to_lowercase: the result is a function of the characters
/// alone, and an empty string stays empty.
#[verifier::external_body]
fn lowercase(s: &str) -> (r: String)
    ensures
        r@ == lower_of(s@),
        s@.len() == 0 ==> r@.len() == 0,
{
    s.to_lowercase()
}

/// Whether `needle` occurs as a contiguous run inside `hay`.
pub open spec fn contains_sub(hay: Seq<char>, needle: Seq<char>) -> bool {
    exists|k: int|
        0 <= k <= hay.len() - needle.len() && #[trigger] hay.subrange(k, k + needle.len())
            == needle
}

/// Substring search.
pub fn contains_str(hay: &str, needle: &str) -> (r: bool)
    ensures
        r == contains_sub(hay@, needle@),
{
    let hlen = hay.unicode_len();
    let nlen = needle.unicode_len();
    if nlen == 0 {
        proof {
            assert(hay@.subrange(0, 0 + needle@.len() as int) =~= needle@);
        }
        return true;
    }
    if nlen > hlen {
        proof {
            assert(!contains_sub(hay@, needle@));
        }
        return false;
    }
    let mut k: usize = 0;
    while k <= hlen - nlen
        invariant
            hlen == hay@.len(),
            nlen == needle@.len(),
            1 <= nlen <= hlen,
            k <= hlen - nlen + 1,
            forall|q: int|
                0 <= q < k ==> #[trigger] hay@.subrange(q, q + nlen) != needle@,
        decreases hlen - nlen - k + 1,
    {
        let mut j: usize = 0;
        let mut matched = true;
        while j < nlen
            invariant
                hlen == hay@.len(),
                nlen == needle@.len(),
                k + nlen <= hlen,
                j <= nlen,
                matched ==> forall|q: int| 0 <= q < j ==> hay@[k + q] == needle@[q],
                !matched ==> hay@.subrange(k as int, k + nlen) != needle@,
            decreases nlen - j,
    {
            if matched {
                if hay.get_char(k + j) != needle.get_char(j) {
                    proof {
                        assert(hay@.subrange(k as int, k + nlen)[j as int] == hay@[k + j]);
                    }
                    matched = false;
                }
            }
            j = j + 1;
        }
        if matched {
            proof {
                assert(hay@.subrange(k as int, k + nlen) =~= needle@);
            }
            return true;
        }
        k = k + 1;
    }
    proof {
        if contains_sub(hay@, needle@) {
            let q = choose|q: int|
                0 <= q <= hay@.len() - needle@.len() && #[trigger] hay@.subrange(
                    q,
                    q + needle@.len(),
                ) == needle@;
            assert(q < k);
        }
    }
    false
}

/// The canned windows the stub reports for a pattern, given the pattern's
/// lowercase form: two game windows for a pattern naming that game, one
/// for the other known title, and otherwise a single synthetic window
/// echoing the pattern.
pub open spec fn stub_windows_ok(pattern: Seq<char>, low: Seq<char>, r: Seq<(u64, String)>) -> bool {
    if contains_sub(low, "warcraft"@) || contains_sub(low, "wow"@) {
        &&& r.len() == 2
        &&& r[0].0 == 10001
        &&& r[0].1@ == "World of Warcraft"@
        &&& r[1].0 == 10002
        &&& r[1].1@ == "World of Warcraft"@
    } else if contains_sub(low, "僵尸"@) || contains_sub(low, "zombie"@) {
        &&& r.len() == 1
        &&& r[0].0 == 20001
        &&& r[0].1@ == "向僵尸开炮"@
    } else {
        &&& r.len() == 1
        &&& r[0].0 == 30001
        &&& r[0].1@ == "Window<"@ + pattern + ">"@
    }
}

/// The stub platform.
pub struct StubPlatform;

impl StubPlatform {
    /// Report the canned windows matching `pattern`, and log the query
    /// under the `stub` prefix.
    pub fn get_instances(&self, pattern: &str, log: &mut Logger) -> (r: Vec<(u64, String)>)
        ensures
            stub_windows_ok(pattern@, lower_of(pattern@), r@),
            logged(
                *final(log),
                *old(log),
                "INFO"@,
                "stub"@,
                lookup_color(old(log).prefixes@, "stub"@),
                "get_instances(\""@ + pattern@ + "\")"@,
            ),
    {
        let mut msg = String::new();
        msg.append("get_instances(\"");
        msg.append(pattern);
        msg.append("\")");
        proof {
            assert(msg@ =~= "get_instances(\""@ + pattern@ + "\")"@);
        }
        info_p(log, "stub", msg.as_str());

        let pat = lowercase(pattern);
        let mut r: Vec<(u64, String)> = Vec::new();
        if contains_str(pat.as_str(), "warcraft") || contains_str(pat.as_str(), "wow") {
            r.push((10001, "World of Warcraft".to_owned()));
            r.push((10002, "World of Warcraft".to_owned()));
        } else if contains_str(pat.as_str(), "僵尸") || contains_str(pat.as_str(), "zombie") {
            r.push((20001, "向僵尸开炮".to_owned()));
        } else {
            let mut title = String::new();
            title.append("Window<");
            title.append(pattern);
            title.append(">");
            proof {
                assert(title@ =~= "Window<"@ + pattern@ + ">"@);
            }
            r.push((30001, title));
        }
        r
    }
}

} // verus!
