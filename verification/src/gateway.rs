//! Reading the default gateway out of the output of the routing tools.

use vstd::prelude::*;
use crate::addr::{parse_ipv4_range, spec_parse_ipv4};
use crate::text::{
    chars_of, first_some, index_of, lemma_first_some_skip, lemma_index_of_is, line_ranges, lines,
    range_eq, range_starts_with, starts_with, trim, trim_range, word_ranges, words,
};

verus! {

/// The gateway of one line of `ip route`: the line's first word is
/// `default`, and the word after the first later `via` is an IPv4 address.
pub open spec fn linux_route_gateway(line: Seq<char>) -> Option<[u8; 4]> {
    let w = words(line);
    if w.len() > 0 && w[0] == "default"@ {
        let j = index_of(w.skip(1), "via"@);
        if j >= 0 && j + 2 < w.len() {
            spec_parse_ipv4(w[j + 2])
        } else {
            None
        }
    } else {
        None
    }
}

/// The gateway of the first line of `ip route` output that names one.
pub open spec fn spec_parse_linux(output: Seq<char>) -> Option<[u8; 4]> {
    first_some(lines(output), |l: Seq<char>| linux_route_gateway(l))
}

/// The gateway of one line of `route -n get default`: the trimmed line
/// starts with `gateway:` and the trimmed rest is an IPv4 address.
pub open spec fn macos_route_gateway(line: Seq<char>) -> Option<[u8; 4]> {
    let l = trim(line);
    if starts_with(l, "gateway:"@) {
        spec_parse_ipv4(trim(l.skip("gateway:"@.len() as int)))
    } else {
        None
    }
}

/// The gateway of the first line of `route -n get default` output that names one.
pub open spec fn spec_parse_macos(output: Seq<char>) -> Option<[u8; 4]> {
    first_some(lines(output), |l: Seq<char>| macos_route_gateway(l))
}

/// The gateway named by the line `t[a..b]` of `ip route` output.
#[verifier::rlimit(20)]
fn linux_line(t: &[char], a: usize, b: usize, default_word: &[char], via_word: &[char]) -> (r: Option<[u8; 4]>)
    requires
        a <= b <= t@.len(),
        default_word@ == "default"@,
        via_word@ == "via"@,
    ensures
        r == linux_route_gateway(t@.subrange(a as int, b as int)),
{
    let ghost line = t@.subrange(a as int, b as int);
    let ghost ws = words(line);
    let w = word_ranges(t, a, b);
    if w.len() == 0 {
        return None;
    }
    if !range_eq(t, w[0].0, w[0].1, default_word) {
        return None;
    }
    let mut k: usize = 1;
    while k < w.len()
        invariant
            1 <= k <= w@.len() == ws.len(),
            a <= b <= t@.len(),
            ws == words(t@.subrange(a as int, b as int)),
            forall|i: int|
                0 <= i < w@.len() ==> a <= (#[trigger] w@[i]).0 <= w@[i].1 <= b && t@.subrange(
                    w@[i].0 as int,
                    w@[i].1 as int,
                ) == ws[i],
            via_word@ == "via"@,
            ws[0] == "default"@,
            forall|i: int| 1 <= i < k ==> ws[i] != "via"@,
        decreases w@.len() - k,
    {
        if range_eq(t, w[k].0, w[k].1, via_word) {
            proof {
                let rest = ws.skip(1);
                assert(ws[k as int] == "via"@);
                assert forall|i: int| 0 <= i < rest.len() && (k - 1 < 0 || i < k - 1) implies rest[i] != "via"@ by {
                    assert(rest[i] == ws[i + 1]);
                }
                assert(rest[k - 1] == ws[k as int]);
                lemma_index_of_is(rest, "via"@, k - 1);
            }
            if w.len() - k > 1 {
                assert(t@.subrange(w@[k + 1].0 as int, w@[k + 1].1 as int) == ws[k + 1]);
                return parse_ipv4_range(t, w[k + 1].0, w[k + 1].1);
            } else {
                return None;
            }
        }
        k = k + 1;
    }
    proof {
        let rest = ws.skip(1);
        assert forall|i: int| 0 <= i < rest.len() implies rest[i] != "via"@ by {
            assert(rest[i] == ws[i + 1]);
        }
        lemma_index_of_is(rest, "via"@, -1);
    }
    None
}

/// Reads `ip route` output (Linux): the IPv4 address after `via` on the
/// first line of the form `default ... via <IP> ...` whose address is valid.
#[verifier::rlimit(20)]
pub fn parse_linux(output: &str) -> (r: Option<[u8; 4]>)
    ensures
        r == spec_parse_linux(output@),
{
    let t = chars_of(output);
    let n = t.len();
    assert(t@.subrange(0, n as int) =~= output@);
    let ls = line_ranges(t.as_slice(), 0, n);
    let ghost all = lines(output@);
    let ghost f = |l: Seq<char>| linux_route_gateway(l);
    let default_word = chars_of("default");
    let via_word = chars_of("via");
    let mut i: usize = 0;
    while i < ls.len()
        invariant
            i <= ls@.len() == all.len(),
            t@ == output@,
            n == t@.len(),
            all == lines(output@),
            f == (|l: Seq<char>| linux_route_gateway(l)),
            default_word@ == "default"@,
            via_word@ == "via"@,
            forall|j: int|
                0 <= j < ls@.len() ==> 0 <= (#[trigger] ls@[j]).0 <= ls@[j].1 <= n && t@.subrange(
                    ls@[j].0 as int,
                    ls@[j].1 as int,
                ) == all[j],
            forall|k: int| 0 <= k < i ==> f(#[trigger] all[k]) is None,
        decreases ls@.len() - i,
    {
        let (a, b) = ls[i];
        match linux_line(t.as_slice(), a, b, default_word.as_slice(), via_word.as_slice()) {
            Some(g) => {
                proof {
                    lemma_first_some_skip(all, f, i as int);
                    assert(all.skip(i as int)[0] == all[i as int]);
                }
                return Some(g);
            },
            None => {},
        }
        i = i + 1;
    }
    proof {
        lemma_first_some_skip(all, f, i as int);
    }
    None
}

/// The gateway named by the line `t[a..b]` of `route -n get default` output.
fn macos_line(t: &[char], a: usize, b: usize, prefix: &[char]) -> (r: Option<[u8; 4]>)
    requires
        a <= b <= t@.len(),
        prefix@ == "gateway:"@,
    ensures
        r == macos_route_gateway(t@.subrange(a as int, b as int)),
{
    let (c, d) = trim_range(t, a, b);
    if !range_starts_with(t, c, d, prefix) {
        return None;
    }
    let start = c + prefix.len();
    assert(t@.subrange(c as int, d as int).skip(prefix@.len() as int) =~= t@.subrange(start as int, d as int));
    let (e, f) = trim_range(t, start, d);
    parse_ipv4_range(t, e, f)
}

/// Reads `route -n get default` output (macOS): the IPv4 address of the
/// first `gateway: <IP>` line whose address is valid.
pub fn parse_macos(output: &str) -> (r: Option<[u8; 4]>)
    ensures
        r == spec_parse_macos(output@),
{
    let t = chars_of(output);
    let n = t.len();
    assert(t@.subrange(0, n as int) =~= output@);
    let ls = line_ranges(t.as_slice(), 0, n);
    let ghost all = lines(output@);
    let ghost f = |l: Seq<char>| macos_route_gateway(l);
    let prefix = chars_of("gateway:");
    let mut i: usize = 0;
    while i < ls.len()
        invariant
            i <= ls@.len() == all.len(),
            t@ == output@,
            n == t@.len(),
            all == lines(output@),
            f == (|l: Seq<char>| macos_route_gateway(l)),
            prefix@ == "gateway:"@,
            forall|j: int|
                0 <= j < ls@.len() ==> 0 <= (#[trigger] ls@[j]).0 <= ls@[j].1 <= n && t@.subrange(
                    ls@[j].0 as int,
                    ls@[j].1 as int,
                ) == all[j],
            forall|k: int| 0 <= k < i ==> f(#[trigger] all[k]) is None,
        decreases ls@.len() - i,
    {
        let (a, b) = ls[i];
        match macos_line(t.as_slice(), a, b, prefix.as_slice()) {
            Some(g) => {
                proof {
                    lemma_first_some_skip(all, f, i as int);
                    assert(all.skip(i as int)[0] == all[i as int]);
                }
                return Some(g);
            },
            None => {},
        }
        i = i + 1;
    }
    proof {
        lemma_first_some_skip(all, f, i as int);
    }
    None
}

} // verus!
