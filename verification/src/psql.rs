//! What the seeding keeps of the report that `psql` writes on its error
//! stream: the lines that announce an error, in French or in English.

use vstd::prelude::*;
use crate::text::{chars_of, contains, contains_str, lines, lines_of, string_of, views};

verus! {

/// A report line that announces an error.
pub open spec fn is_error_line(l: Seq<char>) -> bool {
    contains_str(l, "ERREUR"@) || contains_str(l, "ERROR"@)
}

/// The lines of the report that announce an error, in order.
pub open spec fn error_lines(report: Seq<char>) -> Seq<Seq<char>> {
    lines(report).filter(|l: Seq<char>| is_error_line(l))
}

/// The lines of `psql`'s error report that announce an error, each as it
/// stands in the report.
pub fn psql_error_lines(report: &str) -> (r: Vec<String>)
    ensures
        r@.map_values(|s: String| s@) == error_lines(report@),
{
    let ls = lines_of(chars_of(report).as_slice());
    let fr = chars_of("ERREUR");
    let en = chars_of("ERROR");
    let ghost all = views(ls@);
    let ghost pred = |l: Seq<char>| is_error_line(l);
    let mut out: Vec<String> = Vec::new();
    let mut k: usize = 0;
    while k < ls.len()
        invariant
            k <= ls@.len(),
            all == views(ls@),
            fr@ == "ERREUR"@,
            en@ == "ERROR"@,
            pred == (|l: Seq<char>| is_error_line(l)),
            out@.map_values(|s: String| s@) == all.subrange(0, k as int).filter(pred),
        decreases ls@.len() - k,
    {
        let ghost before = out@.map_values(|s: String| s@);
        let line = ls[k].as_slice();
        let keep = contains(line, fr.as_slice()) || contains(line, en.as_slice());
        proof {
            assert(all.subrange(0, k + 1).drop_last() =~= all.subrange(0, k as int));
            assert(all.subrange(0, k + 1).last() == all[k as int]);
            assert(all[k as int] == ls@[k as int]@);
            reveal(Seq::filter);
        }
        if keep {
            let s = string_of(line);
            out.push(s);
            assert(out@.map_values(|s: String| s@) =~= before.push(all[k as int]));
        } else {
            assert(out@.map_values(|s: String| s@) =~= before);
        }
        k = k + 1;
    }
    assert(all.subrange(0, k as int) =~= all);
    out
}

} // verus!
