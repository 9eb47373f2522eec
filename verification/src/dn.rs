//! Distinguished-name parsing, the pure boundary of the directory
//! credential check: from a membership DN, extract the organisational-unit
//! component — the first comma-separated component that starts with
//! `"ou="` and does not contain `"ou=groups"` — with every `"ou="`
//! removed.

use vstd::prelude::*;
use vstd::string::{StrSliceExecFns, StringExecFns};

verus! {

/// `"ou="` starts at position `k`.
pub open spec fn ou_prefix_at(s: Seq<char>, k: int) -> bool {
    &&& 0 <= k
    &&& k + 3 <= s.len()
    &&& s[k] == 'o'
    &&& s[k + 1] == 'u'
    &&& s[k + 2] == '='
}

/// `"ou=groups"` starts at position `k`.
pub open spec fn ou_groups_at(s: Seq<char>, k: int) -> bool {
    &&& 0 <= k
    &&& k + 9 <= s.len()
    &&& s[k] == 'o'
    &&& s[k + 1] == 'u'
    &&& s[k + 2] == '='
    &&& s[k + 3] == 'g'
    &&& s[k + 4] == 'r'
    &&& s[k + 5] == 'o'
    &&& s[k + 6] == 'u'
    &&& s[k + 7] == 'p'
    &&& s[k + 8] == 's'
}

/// The text contains `"ou=groups"`.
pub open spec fn has_ou_groups(s: Seq<char>) -> bool {
    exists|k: int| #[trigger] ou_groups_at(s, k)
}

/// A component is selected when it starts with `"ou="` and does not
/// contain `"ou=groups"`.
pub open spec fn good_component(s: Seq<char>) -> bool {
    ou_prefix_at(s, 0) && !has_ou_groups(s)
}

/// The text with every occurrence of `"ou="` removed, scanning left to
/// right without overlap: the effect of replacing `"ou="` by the empty
/// string.
pub open spec fn strip_ou(s: Seq<char>) -> Seq<char>
    decreases s.len(),
{
    if s.len() == 0 {
        s
    } else if ou_prefix_at(s, 0) {
        strip_ou(s.skip(3))
    } else {
        seq![s[0]] + strip_ou(s.skip(1))
    }
}

/// The distance from `k` to the first comma at or after it (to the end of
/// the text when none follows).
pub open spec fn comma_off(s: Seq<char>, k: int) -> nat
    decreases s.len() - k,
{
    if k < 0 || k >= s.len() {
        0
    } else if s[k] == ',' {
        0
    } else {
        1 + comma_off(s, k + 1)
    }
}

/// The parse, from component start `k`: take the component up to the next
/// comma; when it is selected, its stripped text is the result; otherwise
/// move past the comma to the next component, failing at the end of the
/// text.
pub open spec fn parse_from(s: Seq<char>, k: int) -> Option<Seq<char>>
    decreases s.len() - k,
{
    if k < 0 || k > s.len() {
        None
    } else {
        let j = k + comma_off(s, k);
        let comp = s.subrange(k, j as int);
        if good_component(comp) {
            Some(strip_ou(comp))
        } else if j >= s.len() {
            None
        } else {
            parse_from(s, j as int + 1)
        }
    }
}

/// The parse of a whole distinguished name.
pub open spec fn parse_ou(s: Seq<char>) -> Option<Seq<char>> {
    parse_from(s, 0)
}

/// `comma_off` reaches exactly the first comma at or after `k`, or the
/// end of the text.
proof fn lemma_comma_off_is(s: Seq<char>, k: int, j: int)
    requires
        0 <= k <= j <= s.len(),
        forall|m: int| k <= m < j ==> #[trigger] s[m] != ',',
        j == s.len() || s[j] == ',',
    ensures
        k + comma_off(s, k) == j,
    decreases j - k,
{
    if k < j {
        lemma_comma_off_is(s, k + 1, j);
    }
}

/// The position of the first comma at or after `k`, or the text's length.
fn find_comma(dn: &str, k: usize) -> (j: usize)
    requires
        k <= dn@.len(),
    ensures
        k <= j <= dn@.len(),
        j as int == k + comma_off(dn@, k as int),
        j < dn@.len() ==> dn@[j as int] == ',',
        forall|m: int| k <= m < j ==> #[trigger] dn@[m] != ',',
{
    let len = dn.unicode_len();
    let mut j = k;
    while j < len
        invariant
            len == dn@.len(),
            k <= j <= len,
            forall|m: int| k <= m < j ==> #[trigger] dn@[m] != ',',
        decreases len - j,
    {
        if dn.get_char(j) == ',' {
            proof {
                lemma_comma_off_is(dn@, k as int, j as int);
            }
            return j;
        }
        j += 1;
    }
    proof {
        lemma_comma_off_is(dn@, k as int, j as int);
    }
    j
}

/// Whether the component `dn[k..j]` is selected: starts with `"ou="` and
/// does not contain `"ou=groups"`.
fn component_good(dn: &str, k: usize, j: usize) -> (r: bool)
    requires
        k <= j <= dn@.len(),
    ensures
        r == good_component(dn@.subrange(k as int, j as int)),
{
    let ghost comp = dn@.subrange(k as int, j as int);
    if j - k < 3 {
        proof {
            assert(!ou_prefix_at(comp, 0));
        }
        return false;
    }
    if !(dn.get_char(k) == 'o' && dn.get_char(k + 1) == 'u' && dn.get_char(k + 2) == '=') {
        proof {
            assert(comp[0] == dn@[k as int] && comp[1] == dn@[k as int + 1] && comp[2] == dn@[
                k as int + 2
            ]);
            assert(!ou_prefix_at(comp, 0));
        }
        return false;
    }
    proof {
        assert(comp[0] == dn@[k as int] && comp[1] == dn@[k as int + 1] && comp[2] == dn@[
            k as int + 2
        ]);
        assert(ou_prefix_at(comp, 0));
    }
    if j - k >= 9 {
        let mut t: usize = k;
        while t <= j - 9
            invariant
                k <= t,
                k + 9 <= j <= dn@.len(),
                t <= j - 8,
                comp == dn@.subrange(k as int, j as int),
                forall|q: int| 0 <= q < t - k ==> !(#[trigger] ou_groups_at(comp, q)),
            decreases j - t,
        {
            if dn.get_char(t) == 'o' && dn.get_char(t + 1) == 'u' && dn.get_char(t + 2) == '='
                && dn.get_char(t + 3) == 'g' && dn.get_char(t + 4) == 'r' && dn.get_char(t + 5)
                == 'o' && dn.get_char(t + 6) == 'u' && dn.get_char(t + 7) == 'p' && dn.get_char(
                t + 8,
            ) == 's' {
                proof {
                    let q0 = t as int - k as int;
                    assert(comp[q0] == dn@[t as int]);
                    assert(comp[q0 + 1] == dn@[t as int + 1]);
                    assert(comp[q0 + 2] == dn@[t as int + 2]);
                    assert(comp[q0 + 3] == dn@[t as int + 3]);
                    assert(comp[q0 + 4] == dn@[t as int + 4]);
                    assert(comp[q0 + 5] == dn@[t as int + 5]);
                    assert(comp[q0 + 6] == dn@[t as int + 6]);
                    assert(comp[q0 + 7] == dn@[t as int + 7]);
                    assert(comp[q0 + 8] == dn@[t as int + 8]);
                    assert(ou_groups_at(comp, q0));
                }
                return false;
            }
            proof {
                assert forall|q: int|
                    0 <= q < t + 1 - k implies !(#[trigger] ou_groups_at(comp, q)) by {
                    if q == t - k {
                        assert(comp[q] == dn@[k as int + q] && comp[q + 1] == dn@[k as int + q + 1]
                            && comp[q + 2] == dn@[k as int + q + 2] && comp[q + 3] == dn@[
                            k as int + q + 3
                        ] && comp[q + 4] == dn@[k as int + q + 4] && comp[q + 5] == dn@[
                            k as int + q + 5
                        ] && comp[q + 6] == dn@[k as int + q + 6] && comp[q + 7] == dn@[
                            k as int + q + 7
                        ] && comp[q + 8] == dn@[k as int + q + 8]);
                    }
                }
            }
            t += 1;
        }
        proof {
            assert forall|q: int| !(#[trigger] ou_groups_at(comp, q)) by {
                if 0 <= q && q + 9 <= comp.len() {
                    assert(q < t - k);
                }
            }
            assert(!has_ou_groups(comp));
        }
    } else {
        proof {
            assert forall|q: int| !(#[trigger] ou_groups_at(comp, q)) by {}
            assert(!has_ou_groups(comp));
        }
    }
    true
}

/// The component `dn[k..j]` with every `"ou="` removed.
fn strip_component(dn: &str, k: usize, j: usize) -> (out: String)
    requires
        k <= j <= dn@.len(),
    ensures
        out@ == strip_ou(dn@.subrange(k as int, j as int)),
{
    let ghost comp = dn@.subrange(k as int, j as int);
    let mut out = String::new();
    let mut m: usize = k;
    let mut run_start: usize = k;
    while m < j
        invariant
            k <= run_start <= m <= j <= dn@.len(),
            comp == dn@.subrange(k as int, j as int),
            strip_ou(comp) == out@ + dn@.subrange(run_start as int, m as int) + strip_ou(
                dn@.subrange(m as int, j as int),
            ),
        decreases j - m,
    {
        let is_ou = j - m >= 3 && dn.get_char(m) == 'o' && dn.get_char(m + 1) == 'u'
            && dn.get_char(m + 2) == '=';
        let ghost rest = dn@.subrange(m as int, j as int);
        proof {
            assert(rest[0] == dn@[m as int]);
            if rest.len() >= 3 {
                assert(rest[1] == dn@[m as int + 1] && rest[2] == dn@[m as int + 2]);
            }
            assert(is_ou == ou_prefix_at(rest, 0));
        }
        if is_ou {
            let piece = dn.substring_char(run_start, m);
            let ghost out_before = out@;
            out.append(piece);
            proof {
                assert(rest.skip(3) =~= dn@.subrange(m as int + 3, j as int));
                assert(strip_ou(rest) == strip_ou(dn@.subrange(m as int + 3, j as int)));
                assert(out@ + dn@.subrange(m as int + 3, m as int + 3) =~= out@);
                assert(out@ + dn@.subrange(m as int + 3, m as int + 3) + strip_ou(
                    dn@.subrange(m as int + 3, j as int),
                ) =~= out_before + dn@.subrange(run_start as int, m as int) + strip_ou(
                    dn@.subrange(m as int, j as int),
                ));
            }
            m += 3;
            run_start = m;
        } else {
            proof {
                assert(strip_ou(rest) == seq![rest[0]] + strip_ou(rest.skip(1)));
                assert(rest.skip(1) =~= dn@.subrange(m as int + 1, j as int));
                assert(out@ + dn@.subrange(run_start as int, m as int + 1) + strip_ou(
                    dn@.subrange(m as int + 1, j as int),
                ) =~= out@ + dn@.subrange(run_start as int, m as int) + strip_ou(
                    dn@.subrange(m as int, j as int),
                ));
            }
            m += 1;
        }
    }
    let piece = dn.substring_char(run_start, j);
    let ghost out_before = out@;
    out.append(piece);
    proof {
        assert(dn@.subrange(j as int, j as int).len() == 0);
        assert(strip_ou(dn@.subrange(j as int, j as int)) =~= Seq::<char>::empty());
        assert(out@ =~= out_before + dn@.subrange(run_start as int, j as int) + strip_ou(
            dn@.subrange(j as int, j as int),
        ));
    }
    out
}

/// Split the distinguished name on commas, take the first component that
/// starts with `"ou="` and does not contain `"ou=groups"`, and return it
/// with every `"ou="` removed; none when no component qualifies.
pub fn parse_ou_from_dn(dn: &str) -> (r: Option<String>)
    ensures
        match r {
            Some(out) => parse_ou(dn@) == Some(out@),
            None => parse_ou(dn@) is None,
        },
{
    let len = dn.unicode_len();
    let mut k: usize = 0;
    loop
        invariant
            len == dn@.len(),
            0 <= k <= len,
            parse_ou(dn@) == parse_from(dn@, k as int),
        decreases len - k,
    {
        let j = find_comma(dn, k);
        let good = component_good(dn, k, j);
        if good {
            let out = strip_component(dn, k, j);
            proof {
                assert(parse_from(dn@, k as int) == Some(
                    strip_ou(dn@.subrange(k as int, j as int)),
                ));
            }
            return Some(out);
        }
        if j >= len {
            proof {
                assert(parse_from(dn@, k as int) is None);
            }
            return None;
        }
        proof {
            assert(parse_from(dn@, k as int) == parse_from(dn@, j as int + 1));
        }
        k = j + 1;
    }
}

/// The organisational units of a list of membership DNs, in order: each
/// DN's parse where it succeeds, skipped where it fails.
pub open spec fn parse_all(dns: Seq<Seq<char>>) -> Seq<Seq<char>>
    decreases dns.len(),
{
    if dns.len() == 0 {
        Seq::empty()
    } else {
        parse_all(dns.drop_last()) + (match parse_ou(dns.last()) {
            Some(x) => seq![x],
            None => Seq::empty(),
        })
    }
}

/// Collect the organisational-unit component of each DN that has one,
/// in order.
pub fn parse_ous_from_dns(dns: &Vec<String>) -> (r: Vec<String>)
    ensures
        r@.map_values(|x: String| x@) == parse_all(dns@.map_values(|d: String| d@)),
{
    let ghost v = dns@.map_values(|d: String| d@);
    let mut out: Vec<String> = Vec::new();
    let mut i: usize = 0;
    while i < dns.len()
        invariant
            v == dns@.map_values(|d: String| d@),
            0 <= i <= dns@.len(),
            out@.map_values(|x: String| x@) == parse_all(v.take(i as int)),
        decreases dns@.len() - i,
    {
        let ghost t = i as int;
        let ghost out_b = out@;
        proof {
            assert(v.take(t + 1).drop_last() =~= v.take(t));
            assert(v.take(t + 1).last() == v[t]);
            assert(v[t] == dns@[t]@);
        }
        match parse_ou_from_dn(dns[i].as_str()) {
            Some(u) => {
                let ghost uv = u@;
                out.push(u);
                proof {
                    assert(out@.map_values(|x: String| x@) =~= out_b.map_values(
                        |x: String| x@,
                    ).push(uv));
                    assert(parse_all(v.take(t + 1)) =~= parse_all(v.take(t)).push(uv));
                }
            },
            None => {
                proof {
                    assert(parse_all(v.take(t + 1)) =~= parse_all(v.take(t)));
                }
            },
        }
        i += 1;
    }
    proof {
        assert(v.take(v.len() as int) =~= v);
    }
    out
}

} // verus!
