//! Helpers of the command line.

use vstd::prelude::*;

use crate::text::{
    chars_of, lemma_split_fields_nonempty, split_fields, string_of, texts, trim, trim_chars,
    trimmed_nonblank,
};

verus! {

/// Splits a comma-separated list into its trimmed, non-blank items.
pub fn split_csv(s: &str) -> (r: Vec<String>)
    ensures
        texts(r@) == trimmed_nonblank(split_fields(s@, ',')),
{
    let cs = chars_of(s);
    let mut out: Vec<String> = Vec::new();
    let mut cur: Vec<char> = Vec::new();
    let mut i: usize = 0;
    proof {
        assert(cs@.take(0) =~= Seq::<char>::empty());
        assert(split_fields(Seq::<char>::empty(), ',').drop_last() =~= Seq::<Seq<char>>::empty());
    }
    while i < cs.len()
        invariant
            0 <= i <= cs@.len(),
            cs@ == s@,
            split_fields(cs@.take(i as int), ',').len() >= 1,
            cur@ == split_fields(cs@.take(i as int), ',').last(),
            texts(out@) == trimmed_nonblank(split_fields(cs@.take(i as int), ',').drop_last()),
        decreases cs@.len() - i,
    {
        let ghost f = split_fields(cs@.take(i as int), ',');
        let c = cs[i];
        assert(cs@.take(i + 1).drop_last() =~= cs@.take(i as int));
        assert(cs@.take(i + 1).last() == c);
        if c == ',' {
            let t = trim_chars(&cur);
            assert(f.push(Seq::empty()).drop_last() =~= f);
            assert(f.drop_last().push(f.last()) =~= f);
            if t.len() > 0 {
                let ghost before = out@;
                out.push(string_of(&t));
                assert(texts(out@) =~= texts(before).push(t@));
            }
            cur = Vec::new();
        } else {
            cur.push(c);
            assert(f.update(f.len() - 1, f.last().push(c)).drop_last() =~= f.drop_last());
        }
        i += 1;
        proof {
            lemma_split_fields_nonempty(cs@.take(i as int), ',');
        }
    }
    assert(cs@.take(cs@.len() as int) =~= cs@);
    let ghost f = split_fields(cs@, ',');
    assert(f.drop_last().push(f.last()) =~= f);
    let t = trim_chars(&cur);
    if t.len() > 0 {
        let ghost before = out@;
        out.push(string_of(&t));
        assert(texts(out@) =~= texts(before).push(t@));
    }
    out
}

/// Every item of a split list is non-blank and has no white space at
/// either end.
pub proof fn lemma_split_items_trimmed(s: Seq<char>)
    ensures
        forall|i: int|
            0 <= i < trimmed_nonblank(split_fields(s, ',')).len() ==> #[trigger] trimmed_nonblank(
                split_fields(s, ','),
            )[i].len() > 0 && trim(trimmed_nonblank(split_fields(s, ','))[i]) == trimmed_nonblank(
                split_fields(s, ','),
            )[i],
{
    crate::text::lemma_trimmed_nonblank_items(split_fields(s, ','));
}

} // verus!
