//! Command lines of the init task: splitting a line into the program to run
//! and its arguments.

use vstd::prelude::*;

verus! {

/// The byte that separates the words of a command line.
pub const SPACE: u8 = 0x20;

/// Reads `s` from the left: the words finished so far, and the word that
/// is still open.
pub open spec fn scan(s: Seq<u8>) -> (Seq<Seq<u8>>, Seq<u8>)
    decreases s.len(),
{
    if s.len() == 0 {
        (Seq::empty(), Seq::empty())
    } else {
        let (done, open) = scan(s.drop_last());
        if s.last() != SPACE {
            (done, open.push(s.last()))
        } else if open.len() > 0 {
            (done.push(open), Seq::empty())
        } else {
            (done, open)
        }
    }
}

/// The words of `s`: its maximal runs of bytes other than the space, from
/// left to right.
pub open spec fn words(s: Seq<u8>) -> Seq<Seq<u8>> {
    let (done, open) = scan(s);
    if open.len() > 0 {
        done.push(open)
    } else {
        done
    }
}

/// The byte strings that the vectors of `v` hold.
pub open spec fn views(v: Seq<Vec<u8>>) -> Seq<Seq<u8>> {
    v.map_values(|w: Vec<u8>| w@)
}

/// A word is not empty and holds no space.
pub open spec fn is_word(w: Seq<u8>) -> bool {
    w.len() > 0 && forall|j: int| 0 <= j < w.len() ==> w[j] != SPACE
}

proof fn lemma_scan_clean(s: Seq<u8>)
    ensures
        forall|k: int| 0 <= k < scan(s).0.len() ==> is_word(#[trigger] scan(s).0[k]),
        forall|j: int| 0 <= j < scan(s).1.len() ==> scan(s).1[j] != SPACE,
        s.len() > 0 && s.last() != SPACE ==> scan(s).1.len() > 0,
    decreases s.len(),
{
    if s.len() > 0 {
        lemma_scan_clean(s.drop_last());
        let (done, open) = scan(s.drop_last());
        let (done2, open2) = scan(s);
        assert forall|k: int| 0 <= k < done2.len() implies is_word(#[trigger] done2[k]) by {
            if k < done.len() {
                assert(done2[k] == done[k]);
                assert(is_word(done[k]));
            } else {
                assert(done2[k] == open);
            }
        }
        assert forall|j: int| 0 <= j < open2.len() implies open2[j] != SPACE by {
            if j < open.len() && s.last() != SPACE {
                assert(open2[j] == open[j]);
            }
        }
    }
}

/// Every word of a command line is non-empty and free of spaces.
pub proof fn lemma_words_clean(s: Seq<u8>)
    ensures
        forall|k: int| 0 <= k < words(s).len() ==> is_word(#[trigger] words(s)[k]),
{
    lemma_scan_clean(s);
}

/// A line of nothing but spaces has no words, and only such a line.
pub proof fn lemma_no_words(s: Seq<u8>)
    ensures
        words(s).len() == 0 <==> forall|j: int| 0 <= j < s.len() ==> s[j] == SPACE,
    decreases s.len(),
{
    if s.len() > 0 {
        let t = s.drop_last();
        lemma_no_words(t);
        lemma_scan_clean(t);
        if forall|j: int| 0 <= j < s.len() ==> s[j] == SPACE {
            assert forall|j: int| 0 <= j < t.len() implies t[j] == SPACE by {
                assert(t[j] == s[j]);
            }
        }
        if words(s).len() == 0 {
            assert(s.last() == SPACE);
            assert forall|j: int| 0 <= j < s.len() implies s[j] == SPACE by {
                if j < t.len() {
                    assert(t[j] == s[j]);
                }
            }
        }
    }
}

/// A command: the program to run and the argument vector handed to it,
/// whose first entry is the program itself.
pub struct Command {
    pub filename: Vec<u8>,
    pub args: Vec<Vec<u8>>,
}

fn copy_bytes(src: &Vec<u8>) -> (out: Vec<u8>)
    ensures
        out@ == src@,
{
    let mut out: Vec<u8> = Vec::new();
    let mut i: usize = 0;
    while i < src.len()
        invariant
            i <= src.len(),
            out@.len() == i,
            forall|k: int| 0 <= k < i ==> out@[k] == src@[k],
        decreases src.len() - i,
    {
        out.push(src[i]);
        i += 1;
    }
    assert(out@ =~= src@);
    out
}

/// Splits a command line at its spaces; empty pieces are dropped.
pub fn split_command(cmd: &Vec<u8>) -> (out: Vec<Vec<u8>>)
    ensures
        views(out@) == words(cmd@),
{
    let mut out: Vec<Vec<u8>> = Vec::new();
    let mut cur: Vec<u8> = Vec::new();
    let mut i: usize = 0;
    assert(views(out@) =~= Seq::<Seq<u8>>::empty());
    assert(cmd@.take(0) =~= Seq::<u8>::empty());
    while i < cmd.len()
        invariant
            i <= cmd.len(),
            (views(out@), cur@) == scan(cmd@.take(i as int)),
        decreases cmd.len() - i,
    {
        let c: u8 = cmd[i];
        let ghost done = views(out@);
        let ghost open = cur@;
        proof {
            assert(cmd@.take(i + 1).drop_last() =~= cmd@.take(i as int));
            assert(cmd@.take(i + 1).last() == c);
        }
        if c != SPACE {
            cur.push(c);
        } else if cur.len() > 0 {
            out.push(cur);
            cur = Vec::new();
            assert(views(out@) =~= done.push(open));
        }
        i += 1;
    }
    assert(cmd@.take(i as int) =~= cmd@);
    if cur.len() > 0 {
        let ghost done = views(out@);
        let ghost open = cur@;
        out.push(cur);
        assert(views(out@) =~= done.push(open));
    }
    out
}

/// Reads a command line: the first word names the program, and all the
/// words, the first included, are its arguments. Returns `None` exactly for
/// a line without words.
pub fn parse_command(cmd: &Vec<u8>) -> (r: Option<Command>)
    ensures
        r is None <==> words(cmd@).len() == 0,
        r is Some ==> r.unwrap().filename@ == words(cmd@)[0] && views(r.unwrap().args@) == words(
            cmd@,
        ),
{
    let args = split_command(cmd);
    if args.len() == 0 {
        return None;
    }
    assert(views(args@)[0] == args@[0]@);
    let filename = copy_bytes(&args[0]);
    Some(Command { filename, args })
}

} // verus!
