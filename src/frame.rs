use vstd::prelude::*;

verus! {

/// The byte that ends each line of the log.
pub const NEWLINE: u8 = 10;

/// The pieces, joined with a newline between each two.
pub open spec fn joined(pieces: Seq<Seq<u8>>) -> Seq<u8>
    decreases pieces.len(),
{
    if pieces.len() <= 1 {
        if pieces.len() == 0 {
            Seq::empty()
        } else {
            pieces[0]
        }
    } else {
        joined(pieces.drop_last()) + seq![NEWLINE] + pieces.last()
    }
}

/// The lines, each followed by a newline.
pub open spec fn framed(lines: Seq<Seq<u8>>) -> Seq<u8>
    decreases lines.len(),
{
    if lines.len() == 0 {
        Seq::empty()
    } else {
        framed(lines.drop_last()) + lines.last() + seq![NEWLINE]
    }
}

/// No byte of `s` is a newline.
pub open spec fn no_newline(s: Seq<u8>) -> bool {
    forall|i: int| 0 <= i < s.len() ==> s[i] != NEWLINE
}

/// A framed file is the lines and one empty piece, joined.
pub proof fn lemma_framed_joined(lines: Seq<Seq<u8>>)
    ensures
        framed(lines) == joined(lines.push(Seq::<u8>::empty())),
    decreases lines.len(),
{
    if lines.len() > 0 {
        let t = lines.drop_last();
        lemma_framed_joined(t);
        let p = lines.push(Seq::<u8>::empty());
        assert(p.drop_last() =~= lines);
        assert(t.push(Seq::<u8>::empty()).drop_last() =~= t);
        let e = Seq::<u8>::empty();
        if t.len() == 0 {
            assert(joined(t.push(e)) == t.push(e)[0]);
            assert(joined(t.push(e)) =~= e);
            assert(joined(lines) == lines[0]);
            assert(joined(t.push(e)) + lines.last() =~= joined(lines));
        } else {
            assert(joined(t.push(e)) =~= joined(t) + seq![NEWLINE]);
            assert(joined(t.push(e)) + lines.last() =~= joined(lines));
        }
        assert(joined(p) == joined(lines) + seq![NEWLINE] + e);
        assert(framed(lines) =~= joined(p));
    }
}

/// Joining pieces without a newline keeps them apart: equal results come
/// from equal pieces.
pub proof fn lemma_joined_unique(a: Seq<Seq<u8>>, b: Seq<Seq<u8>>)
    requires
        a.len() >= 1,
        b.len() >= 1,
        forall|i: int| 0 <= i < a.len() ==> no_newline(#[trigger] a[i]),
        forall|i: int| 0 <= i < b.len() ==> no_newline(#[trigger] b[i]),
        joined(a) == joined(b),
    ensures
        a == b,
    decreases a.len() + b.len(),
{
    if a.len() == 1 && b.len() == 1 {
        assert(a =~= b);
    } else if a.len() == 1 {
        lemma_joined_no_newline(a);
        let jb = joined(b.drop_last());
        assert(joined(b)[jb.len() as int] == NEWLINE);
    } else if b.len() == 1 {
        lemma_joined_no_newline(b);
        let ja = joined(a.drop_last());
        assert(joined(a)[ja.len() as int] == NEWLINE);
    } else {
        let n = joined(a).len();
        let la = a.last();
        let lb = b.last();
        assert(no_newline(la) && no_newline(lb));
        if la.len() < lb.len() {
            assert(joined(a)[n - la.len() - 1] == NEWLINE);
            assert(joined(b)[n - la.len() - 1] == lb[lb.len() - la.len() - 1]);
        } else if lb.len() < la.len() {
            assert(joined(b)[n - lb.len() - 1] == NEWLINE);
            assert(joined(a)[n - lb.len() - 1] == la[la.len() - lb.len() - 1]);
        } else {
            assert(la =~= joined(a).subrange(n - la.len(), n as int));
            assert(lb =~= joined(b).subrange(n - lb.len(), n as int));
            assert(joined(a.drop_last()) =~= joined(a).subrange(0, n - la.len() - 1));
            assert(joined(b.drop_last()) =~= joined(b).subrange(0, n - lb.len() - 1));
            assert forall|i: int| 0 <= i < a.drop_last().len() implies no_newline(#[trigger] a.drop_last()[i]) by {
                assert(a.drop_last()[i] == a[i]);
            }
            assert forall|i: int| 0 <= i < b.drop_last().len() implies no_newline(#[trigger] b.drop_last()[i]) by {
                assert(b.drop_last()[i] == b[i]);
            }
            lemma_joined_unique(a.drop_last(), b.drop_last());
            assert(a =~= a.drop_last().push(la));
            assert(b =~= b.drop_last().push(lb));
        }
    }
}

/// One piece without a newline joins to itself.
proof fn lemma_joined_no_newline(a: Seq<Seq<u8>>)
    requires
        a.len() == 1,
        no_newline(a[0]),
    ensures
        no_newline(joined(a)),
{
}

/// Reading back a file written by `frame_lines` gives each line again, and
/// one empty piece after the last newline.
pub proof fn lemma_frame_round_trip(lines: Seq<Seq<u8>>, pieces: Seq<Seq<u8>>)
    requires
        forall|i: int| 0 <= i < lines.len() ==> no_newline(#[trigger] lines[i]),
        pieces.len() >= 1,
        forall|i: int| 0 <= i < pieces.len() ==> no_newline(#[trigger] pieces[i]),
        joined(pieces) == framed(lines),
    ensures
        pieces == lines.push(Seq::<u8>::empty()),
{
    lemma_framed_joined(lines);
    let p = lines.push(Seq::<u8>::empty());
    assert forall|i: int| 0 <= i < p.len() implies no_newline(#[trigger] p[i]) by {
        if i < lines.len() {
            assert(p[i] == lines[i]);
        }
    }
    lemma_joined_unique(pieces, p);
}

/// Cuts the bytes of a log file at each newline. The last piece is what
/// follows the last newline (empty where the file ends with one).
pub fn split_lines(content: &Vec<u8>) -> (r: Vec<Vec<u8>>)
    ensures
        r@.len() >= 1,
        forall|i: int| 0 <= i < r@.len() ==> no_newline(#[trigger] r@[i]@),
        joined(r@.map_values(|l: Vec<u8>| l@)) == content@,
{
    let mut out: Vec<Vec<u8>> = Vec::new();
    let mut cur: Vec<u8> = Vec::new();
    let mut i: usize = 0;
    while i < content.len()
        invariant
            i <= content.len(),
            forall|j: int| 0 <= j < out@.len() ==> no_newline(#[trigger] out@[j]@),
            no_newline(cur@),
            joined(out@.map_values(|l: Vec<u8>| l@).push(cur@)) == content@.take(i as int),
        decreases content.len() - i,
    {
        let ghost pieces = out@.map_values(|l: Vec<u8>| l@);
        let b = content[i];
        assert(content@.take(i as int + 1) =~= content@.take(i as int).push(b));
        if b == NEWLINE {
            let done = cur;
            out.push(done);
            cur = Vec::new();
            let ghost np = out@.map_values(|l: Vec<u8>| l@);
            assert(np =~= pieces.push(done@));
            assert(np.push(cur@).drop_last() =~= np);
            assert(joined(np.push(cur@)) =~= joined(np) + seq![NEWLINE]);
        } else {
            let ghost before = cur@;
            cur.push(b);
            assert(pieces.push(cur@).drop_last() =~= pieces);
            assert(pieces.push(before).drop_last() =~= pieces);
            assert(joined(pieces.push(cur@)) =~= joined(pieces.push(before)).push(b));
        }
        i = i + 1;
    }
    let ghost pieces = out@.map_values(|l: Vec<u8>| l@);
    let ghost last = cur@;
    out.push(cur);
    assert(out@.map_values(|l: Vec<u8>| l@) =~= pieces.push(last));
    assert(content@.take(i as int) =~= content@);
    out
}

/// The bytes of a log file that holds `lines`, one per line.
pub fn frame_lines(lines: &Vec<Vec<u8>>) -> (r: Vec<u8>)
    ensures
        r@ == framed(lines@.map_values(|l: Vec<u8>| l@)),
{
    let ghost ls = lines@.map_values(|l: Vec<u8>| l@);
    let mut out: Vec<u8> = Vec::new();
    let mut i: usize = 0;
    while i < lines.len()
        invariant
            i <= lines.len(),
            ls == lines@.map_values(|l: Vec<u8>| l@),
            out@ == framed(ls.take(i as int)),
        decreases lines.len() - i,
    {
        let line = &lines[i];
        let ghost start = out@;
        let mut j: usize = 0;
        while j < line.len()
            invariant
                j <= line.len(),
                out@ == start + line@.take(j as int),
            decreases line.len() - j,
        {
            out.push(line[j]);
            assert(line@.take(j as int + 1) =~= line@.take(j as int).push(line@[j as int]));
            j = j + 1;
        }
        out.push(NEWLINE);
        assert(line@.take(j as int) =~= line@);
        assert(ls.take(i as int + 1).drop_last() =~= ls.take(i as int));
        assert(out@ =~= framed(ls.take(i as int + 1)));
        i = i + 1;
    }
    assert(ls.take(i as int) =~= ls);
    out
}

} // verus!
