//! The rustfmt formatter descriptor, and the exact command line it builds
//! for a set of changed ranges.

use vstd::prelude::*;

use crate::format::{views_of, Format, FormatRequest, Hunk, Hunks};

verus! {

/// The decimal digit character for `d` (meaningful for `d < 10`).
pub open spec fn digit_char(d: nat) -> char {
    if d == 0 {
        '0'
    } else if d == 1 {
        '1'
    } else if d == 2 {
        '2'
    } else if d == 3 {
        '3'
    } else if d == 4 {
        '4'
    } else if d == 5 {
        '5'
    } else if d == 6 {
        '6'
    } else if d == 7 {
        '7'
    } else if d == 8 {
        '8'
    } else {
        '9'
    }
}

/// The decimal numeral of `n`, most significant digit first, with no
/// leading zeros (a lone zero for `n == 0`).
pub open spec fn dec_of(n: nat) -> Seq<char>
    decreases n,
{
    if n < 10 {
        seq![digit_char(n)]
    } else {
        dec_of(n / 10).push(digit_char(n % 10))
    }
}

fn digit_str(d: u8) -> (r: &'static str)
    requires
        d < 10,
    ensures
        r@ == seq![digit_char(d as nat)],
{
    let r: &'static str = if d == 0 {
        "0"
    } else if d == 1 {
        "1"
    } else if d == 2 {
        "2"
    } else if d == 3 {
        "3"
    } else if d == 4 {
        "4"
    } else if d == 5 {
        "5"
    } else if d == 6 {
        "6"
    } else if d == 7 {
        "7"
    } else if d == 8 {
        "8"
    } else {
        "9"
    };
    proof {
        reveal_strlit("0");
        reveal_strlit("1");
        reveal_strlit("2");
        reveal_strlit("3");
        reveal_strlit("4");
        reveal_strlit("5");
        reveal_strlit("6");
        reveal_strlit("7");
        reveal_strlit("8");
        reveal_strlit("9");
        assert(r@ =~= seq![digit_char(d as nat)]);
    }
    r
}

/// Render `n` in decimal.
pub fn u64_to_string(n: u64) -> (s: String)
    ensures
        s@ == dec_of(n as nat),
    decreases n,
{
    if n < 10 {
        String::from_str(digit_str(n as u8))
    } else {
        let mut s = u64_to_string(n / 10);
        s.append(digit_str((n % 10) as u8));
        proof {
            assert(s@ =~= dec_of(n as nat));
        }
        s
    }
}

/// The line range a hunk is formatted over: one line past `start + lines`,
/// kept exactly as the external tool expects it.
pub open spec fn range_end(h: Hunk) -> nat {
    h.start as nat + h.lines as nat + 1
}

/// The JSON record for one changed range of one file.
pub open spec fn record_json(path: Seq<char>, h: Hunk) -> Seq<char> {
    "{\"file\":\""@ + path + "\",\"range\":["@ + dec_of(h.start as nat) + ","@ + dec_of(
        range_end(h),
    ) + "]}"@
}

fn record_string(path: &String, h: Hunk) -> (r: String)
    ensures
        r@ == record_json(path@, h),
{
    let mut s = String::from_str("{\"file\":\"");
    s.append(path.as_str());
    s.append("\",\"range\":[");
    let start = u64_to_string(h.start as u64);
    s.append(start.as_str());
    s.append(",");
    let end: u64 = h.start as u64 + h.lines as u64 + 1;
    let end_s = u64_to_string(end);
    s.append(end_s.as_str());
    s.append("]}");
    proof {
        assert(s@ =~= record_json(path@, h));
    }
    s
}

/// The JSON records of one path's hunk list, in order.
pub open spec fn records_of_entry(path: Seq<char>, hs: Seq<Hunk>) -> Seq<Seq<char>>
    decreases hs.len(),
{
    if hs.len() == 0 {
        Seq::empty()
    } else {
        seq![record_json(path, hs[0])] + records_of_entry(path, hs.drop_first())
    }
}

/// The JSON records of a whole mapping, path entries in order.
pub open spec fn records_of(entries: Seq<(Seq<char>, Seq<Hunk>)>) -> Seq<Seq<char>>
    decreases entries.len(),
{
    if entries.len() == 0 {
        Seq::empty()
    } else {
        records_of_entry(entries[0].0, entries[0].1) + records_of(entries.drop_first())
    }
}

/// The pieces joined with a comma between neighbours.
pub open spec fn join_comma(rs: Seq<Seq<char>>) -> Seq<char>
    decreases rs.len(),
{
    if rs.len() == 0 {
        Seq::empty()
    } else if rs.len() == 1 {
        rs[0]
    } else {
        rs[0] + ","@ + join_comma(rs.drop_first())
    }
}

proof fn lemma_join_push(rs: Seq<Seq<char>>, r: Seq<char>)
    ensures
        rs.len() == 0 ==> join_comma(rs.push(r)) == r,
        rs.len() > 0 ==> join_comma(rs.push(r)) =~= join_comma(rs) + ","@ + r,
    decreases rs.len(),
{
    if rs.len() == 0 {
        assert(rs.push(r)[0] == r);
    } else {
        assert(rs.push(r).drop_first() =~= rs.drop_first().push(r));
        lemma_join_push(rs.drop_first(), r);
        assert(rs.push(r)[0] == rs[0]);
    }
}

/// The serialized request payload: a JSON array of per-range records.
pub open spec fn payload_of(entries: Seq<(Seq<char>, Seq<Hunk>)>) -> Seq<char> {
    "["@ + join_comma(records_of(entries)) + "]"@
}

/// The paths of a mapping, entry order kept.
pub open spec fn paths_of(entries: Seq<(Seq<char>, Seq<Hunk>)>) -> Seq<Seq<char>> {
    entries.map_values(|e: (Seq<char>, Seq<Hunk>)| e.0)
}

/// Descriptor of the external `rustfmt` tool. All instances stand for the
/// same formatter kind, so any two compare equal.
#[derive(Clone, Copy, PartialEq, Eq, Structural, Debug)]
pub struct CallRustFmt;

impl Format for CallRustFmt {
    open spec fn spec_extensions(&self) -> Seq<Seq<char>> {
        seq!["rs"@]
    }

    open spec fn spec_name(&self) -> Seq<char> {
        "CallRustFmt"@
    }

    /// rustfmt is run on its nightly toolchain with the experimental
    /// range-restricted mode, the serialized ranges, a flag keeping it off
    /// files outside the list, and the affected paths.
    open spec fn spec_request(&self, hunks: Seq<(Seq<char>, Seq<Hunk>)>) -> (
        Seq<char>,
        Seq<Seq<char>>,
    ) {
        (
            "rustfmt"@,
            seq!["+nightly"@, "--unstable-features"@, "--file-lines"@, payload_of(hunks), "--skip-children"@]
                + paths_of(hunks),
        )
    }

    fn extensions(&self) -> (r: Vec<String>)
        ensures
            views_of(r@) == self.spec_extensions(),
    {
        let mut r: Vec<String> = Vec::new();
        r.push(String::from_str("rs"));
        proof {
            assert(views_of(r@) =~= self.spec_extensions());
        }
        r
    }

    fn name(&self) -> (r: String)
        ensures
            r@ == self.spec_name(),
    {
        String::from_str("CallRustFmt")
    }

    fn format(&self, p: Hunks) -> (r: FormatRequest)
        ensures
            r@ == self.spec_request(p@),
    {
        let ghost total = p@;

        let mut paths: Vec<String> = Vec::new();
        let n = p.entries.len();
        let mut i: usize = 0;
        while i < n
            invariant
                n == p.entries.len(),
                i <= n,
                total == p@,
                views_of(paths@) == paths_of(total.take(i as int)),
            decreases n - i,
        {
            let ghost pre = views_of(paths@);
            let s = p.entries[i].0.clone();
            proof {
                assert(s@ == p.entries@[i as int].0@);
                assert(total[i as int].0 == p.entries@[i as int].0@);
            }
            paths.push(s);
            proof {
                assert(views_of(paths@) =~= pre.push(total[i as int].0));
                assert(pre.push(total[i as int].0) =~= paths_of(total.take(i as int + 1)));
            }
            i = i + 1;
        }
        proof {
            assert(total.take(n as int) =~= total);
        }

        let mut records: Vec<String> = Vec::new();
        let mut rest = p.entries;
        while rest.len() > 0
            invariant
                views_of(records@) + records_of(crate::format::entries_view(rest@)) =~= records_of(
                    total,
                ),
            decreases rest.len(),
        {
            let ghost rv = crate::format::entries_view(rest@);
            let e = rest.remove(0);
            proof {
                assert(crate::format::entries_view(rest@) =~~= rv.drop_first());
                assert(rv[0] == (e.0@, e.1@));
            }
            let m = e.1.len();
            let mut j: usize = 0;
            proof {
                assert(e.1@.skip(0) =~= e.1@);
            }
            while j < m
                invariant
                    m == e.1.len(),
                    j <= m,
                    views_of(records@) + records_of_entry(e.0@, e.1@.skip(j as int)) + records_of(
                        crate::format::entries_view(rest@),
                    ) =~= records_of(total),
                decreases m - j,
            {
                let ghost pre = views_of(records@);
                records.push(record_string(&e.0, e.1[j]));
                proof {
                    assert(views_of(records@) =~= pre.push(record_json(e.0@, e.1@[j as int])));
                    assert(e.1@.skip(j as int)[0] == e.1@[j as int]);
                    assert(e.1@.skip(j as int).drop_first() =~= e.1@.skip(j as int + 1));
                    assert(views_of(records@) + records_of_entry(e.0@, e.1@.skip(j as int + 1))
                        + records_of(crate::format::entries_view(rest@)) =~= records_of(total));
                }
                j = j + 1;
            }
            proof {
                assert(e.1@.skip(m as int) =~= Seq::<Hunk>::empty());
            }
        }
        proof {
            assert(views_of(records@) =~= records_of(total));
        }

        let ghost rvs = views_of(records@);
        let mut payload = String::from_str("[");
        let nr = records.len();
        let mut k: usize = 0;
        proof {
            assert(rvs.take(0) =~= Seq::<Seq<char>>::empty());
            assert(payload@ =~= "["@ + join_comma(rvs.take(0)));
        }
        while k < nr
            invariant
                nr == records.len(),
                k <= nr,
                views_of(records@) == rvs,
                payload@ == "["@ + join_comma(rvs.take(k as int)),
            decreases nr - k,
        {
            if k > 0 {
                payload.append(",");
            }
            payload.append(records[k].as_str());
            proof {
                lemma_join_push(rvs.take(k as int), rvs[k as int]);
                assert(rvs.take(k as int).push(rvs[k as int]) =~= rvs.take(k as int + 1));
                assert(payload@ =~= "["@ + join_comma(rvs.take(k as int + 1)));
            }
            k = k + 1;
        }
        payload.append("]");
        proof {
            assert(rvs.take(nr as int) =~= rvs);
            assert(payload@ =~= payload_of(total));
        }

        let mut args: Vec<String> = Vec::new();
        args.push(String::from_str("+nightly"));
        args.push(String::from_str("--unstable-features"));
        args.push(String::from_str("--file-lines"));
        args.push(payload);
        args.push(String::from_str("--skip-children"));
        let mut paths = paths;
        args.append(&mut paths);
        let r = FormatRequest { program: String::from_str("rustfmt"), args };
        proof {
            assert(r@.1 =~= self.spec_request(total).1);
            assert(r@ == self.spec_request(total));
        }
        r
    }
}

} // verus!
