use vstd::prelude::*;

use crate::entry::{
    deserialize_reads_serialized, entry_pieces, format_entry, lemma_format_pieces, normalized,
    one_line, parse_entry, Entry, SpecEntry,
};
use crate::text::{
    blank_sep, blocks, blocks_of, char_rows, chars_of, copy_chars, decimal, extend_chars, is_digit,
    join_blocks, join_blocks_of, lemma_decimal, lemma_digits_no_newline, lemma_join_blocks,
    lemma_join_push, lemma_sep_fold_concat, lemma_split_incl_concat, line_pieces, pieces, sep_fold,
    sep_step, split_incl, string_from_chars, trim, trim_chars,
};

verus! {

/// The values of a sequence of entries.
pub open spec fn entry_views(v: Seq<Entry>) -> Seq<SpecEntry> {
    v.map_values(|e: Entry| e@)
}

/// One step of reading a stored file: each piece is added to the pending text;
/// a blank line ends the pending text, which is read as an entry and kept if it
/// reads without error.
pub open spec fn read_step(st: (Seq<SpecEntry>, Seq<char>), p: Seq<char>) -> (
    Seq<SpecEntry>,
    Seq<char>,
) {
    let acc = st.1 + p;
    if p == seq!['\n'] {
        (
            match parse_entry(acc) {
                Ok(e) => st.0.push(e),
                Err(_) => st.0,
            },
            Seq::<char>::empty(),
        )
    } else {
        (st.0, acc)
    }
}

/// The entries read, and the text pending, after reading the pieces `ps`.
pub open spec fn read_fold(ps: Seq<Seq<char>>) -> (Seq<SpecEntry>, Seq<char>)
    decreases ps.len(),
{
    if ps.len() == 0 {
        (Seq::<SpecEntry>::empty(), Seq::<char>::empty())
    } else {
        read_step(read_fold(ps.drop_last()), ps.last())
    }
}

/// The entries that a stored file holds.
pub open spec fn read_entries(s: Seq<char>) -> Seq<SpecEntry> {
    read_fold(pieces(s)).0
}

/// The entries read from a file's text, in order.
pub fn get_entries(contents: &str) -> (r: Vec<Entry>)
    ensures
        entry_views(r@) == read_entries(contents@),
{
    let cs = chars_of(contents);
    let ps = line_pieces(&cs);
    let mut entries: Vec<Entry> = Vec::new();
    let mut acc: Vec<char> = Vec::new();
    let mut i: usize = 0;
    while i < ps.len()
        invariant
            i <= ps.len(),
            char_rows(ps@) == pieces(contents@),
            (entry_views(entries@), acc@) == read_fold(char_rows(ps@).take(i as int)),
        decreases ps.len() - i,
    {
        let ghost rows = char_rows(ps@);
        assert(rows.take(i + 1).drop_last() =~= rows.take(i as int));
        assert(rows.take(i + 1).last() == ps@[i as int]@);
        let p = &ps[i];
        extend_chars(&mut acc, p);
        if p.len() == 1 && p[0] == '\n' {
            assert(p@ =~= seq!['\n']);
            let text = string_from_chars(&acc);
            match Entry::deserialize(text.as_str()) {
                Ok(e) => {
                    let ghost before = entry_views(entries@);
                    entries.push(e);
                    assert(entry_views(entries@) =~= before.push(e@));
                },
                Err(_) => {},
            }
            acc = Vec::new();
            assert(acc@ =~= Seq::<char>::empty());
        } else {
            assert(p@ != seq!['\n']) by {
                if p@ =~= seq!['\n'] {
                    assert(p@.len() == 1 && p@[0] == '\n');
                }
            }
        }
        i = i + 1;
    }
    assert(char_rows(ps@).take(i as int) =~= char_rows(ps@));
    entries
}

/// `ps` without the element at `index`, if there is one.
pub open spec fn without(ps: Seq<Seq<char>>, index: int) -> Seq<Seq<char>> {
    if 0 <= index < ps.len() {
        ps.remove(index)
    } else {
        ps
    }
}

/// `s` with the elements at `a` and `b` exchanged.
pub open spec fn swapped<T>(s: Seq<T>, a: int, b: int) -> Seq<T> {
    s.update(a, s[b]).update(b, s[a])
}

/// The file text with the block at `index` (blocks being separated by a blank
/// line) left out; the text is unchanged when there is no such block.
pub fn remove_entry(contents: &str, index: usize) -> (r: String)
    ensures
        r@ == join_blocks(without(blocks(contents@), index as int)),
{
    let cs = chars_of(contents);
    let bs = blocks_of(&cs);
    let mut kept: Vec<Vec<char>> = Vec::new();
    let mut i: usize = 0;
    while i < bs.len()
        invariant
            i <= bs.len(),
            char_rows(bs@) == blocks(contents@),
            char_rows(kept@) == if index < i {
                char_rows(bs@).take(i as int).remove(index as int)
            } else {
                char_rows(bs@).take(i as int)
            },
        decreases bs.len() - i,
    {
        let ghost rows = char_rows(bs@);
        let ghost before = char_rows(kept@);
        if i != index {
            let b = copy_chars(&bs[i]);
            kept.push(b);
            assert(char_rows(kept@) =~= before.push(bs@[i as int]@));
        }
        assert(rows[i as int] == bs@[i as int]@);
        i = i + 1;
        if index < i {
            assert(char_rows(kept@) =~= rows.take(i as int).remove(index as int));
        } else {
            assert(char_rows(kept@) =~= rows.take(i as int));
        }
    }
    assert(char_rows(bs@).take(i as int) =~= char_rows(bs@));
    let joined = join_blocks_of(&kept);
    string_from_chars(&joined)
}

/// The file text with the blocks at `index_a` and `index_b` exchanged, or `None`
/// when either index names no block.
pub fn swap_entries(contents: &str, index_a: usize, index_b: usize) -> (r: Option<String>)
    ensures
        match r {
            Some(t) => index_a < blocks(contents@).len() && index_b < blocks(contents@).len()
                && t@ == join_blocks(swapped(blocks(contents@), index_a as int, index_b as int)),
            None => index_a >= blocks(contents@).len() || index_b >= blocks(contents@).len(),
        },
{
    let cs = chars_of(contents);
    let bs = blocks_of(&cs);
    if index_a >= bs.len() || index_b >= bs.len() {
        return None;
    }
    let ghost rows = char_rows(bs@);
    let ghost target = swapped(rows, index_a as int, index_b as int);
    let mut out: Vec<Vec<char>> = Vec::new();
    let mut i: usize = 0;
    while i < bs.len()
        invariant
            i <= bs.len(),
            index_a < bs.len(),
            index_b < bs.len(),
            rows == char_rows(bs@),
            target == swapped(rows, index_a as int, index_b as int),
            char_rows(out@) == target.take(i as int),
        decreases bs.len() - i,
    {
        let k = if i == index_b {
            index_a
        } else if i == index_a {
            index_b
        } else {
            i
        };
        let b = copy_chars(&bs[k]);
        let ghost before = char_rows(out@);
        assert(target[i as int] == rows[k as int]);
        out.push(b);
        assert(rows[k as int] == bs@[k as int]@);
        assert(char_rows(out@) =~= before.push(rows[k as int]));
        i = i + 1;
        assert(char_rows(out@) =~= target.take(i as int));
    }
    assert(target.take(i as int) =~= target);
    let joined = join_blocks_of(&out);
    Some(string_from_chars(&joined))
}

/// The word that marks a repository as set up.
pub open spec fn marker() -> Seq<char> {
    seq!['d', 'n', 'd', 'n']
}

/// Whether a line of git's exclude file is the marker, white space aside.
pub fn is_init_marker(line: &str) -> (b: bool)
    ensures
        b == (trim(line@) == marker()),
{
    let cs = chars_of(line);
    let t = trim_chars(&cs);
    if t.len() == 4 && t[0] == 'd' && t[1] == 'n' && t[2] == 'd' && t[3] == 'n' {
        assert(t@ =~= marker());
        true
    } else {
        proof {
            if t@ == marker() {
                assert(t@[0] == 'd' && t@[1] == 'n' && t@[2] == 'd' && t@[3] == 'n');
            }
        }
        false
    }
}

// What storing and reading entries keeps

/// An entry that a file keeps intact: a non-empty single-line path and, if it
/// has one, a non-empty single-line comment.
pub open spec fn storable(e: SpecEntry) -> bool {
    &&& one_line(e.path)
    &&& e.path.len() > 0
    &&& (e.comment matches Some(c) ==> one_line(c) && c.len() > 0)
}

/// File text that ends between two entries: no line and no entry is pending.
pub open spec fn at_boundary(s: Seq<char>) -> bool {
    split_incl(s).1.len() == 0 && read_fold(pieces(s)).1.len() == 0
}

/// The text of a file to which the entries `es` were added in order, starting empty.
pub open spec fn write_all(es: Seq<SpecEntry>) -> Seq<char>
    decreases es.len(),
{
    if es.len() == 0 {
        Seq::<char>::empty()
    } else {
        write_all(es.drop_last()) + format_entry(es.last())
    }
}

/// Reading `a` and then `b`, when nothing is pending after `a`, reads each on its own.
pub proof fn lemma_read_fold_concat(a: Seq<Seq<char>>, b: Seq<Seq<char>>)
    requires
        read_fold(a).1.len() == 0,
    ensures
        read_fold(a + b) == (read_fold(a).0 + read_fold(b).0, read_fold(b).1),
    decreases b.len(),
{
    if b.len() == 0 {
        assert(a + b =~= a);
        assert(read_fold(a).0 + read_fold(b).0 =~= read_fold(a).0);
    } else {
        assert((a + b).drop_last() =~= a + b.drop_last());
        assert((a + b).last() == b.last());
        lemma_read_fold_concat(a, b.drop_last());
        let x = read_fold(a).0;
        let st = read_fold(b.drop_last());
        let acc = st.1 + b.last();
        if b.last() == seq!['\n'] {
            match parse_entry(acc) {
                Ok(e) => {
                    assert((x + st.0).push(e) =~= x + st.0.push(e));
                },
                Err(_) => {},
            }
        }
    }
}

proof fn lemma_read_entry_pieces(e: SpecEntry)
    requires
        storable(e),
    ensures
        read_fold(entry_pieces(e)) == (seq![normalized(e)], Seq::<char>::empty()),
{
    deserialize_reads_serialized(e);
    let dec = decimal(e.line as nat);
    lemma_decimal(e.line as nat);
    let p1 = e.path.push('\n');
    let p2 = dec.push('\n');
    let nl = seq!['\n'];
    let empty_entries = Seq::<SpecEntry>::empty();
    let empty = Seq::<char>::empty();
    assert(p1 != nl) by {
        assert(p1.len() != nl.len());
    }
    assert(p2 != nl) by {
        assert(p2.len() != nl.len());
    }
    let pcs = entry_pieces(e);
    match e.comment {
        Some(c) => {
            let p3 = c.push('\n');
            assert(p3 != nl) by {
                assert(p3.len() != nl.len());
            }
            assert(pcs.drop_last() =~= seq![p1, p2, p3]);
            assert(seq![p1, p2, p3].drop_last() =~= seq![p1, p2]);
            assert(seq![p1, p2].drop_last() =~= seq![p1]);
            assert(seq![p1].drop_last() =~= Seq::<Seq<char>>::empty());
            assert(read_fold(Seq::<Seq<char>>::empty()) == (empty_entries, empty));
            assert(seq![p1].last() == p1);
            assert(read_fold(seq![p1]) == read_step((empty_entries, empty), p1));
            assert(read_fold(seq![p1]) == (empty_entries, empty + p1));
            assert(read_fold(seq![p1, p2]) == (empty_entries, empty + p1 + p2));
            assert(read_fold(seq![p1, p2, p3]) == (empty_entries, empty + p1 + p2 + p3));
            assert(empty + p1 + p2 + p3 + nl =~= format_entry(e));
            assert(empty_entries.push(normalized(e)) =~= seq![normalized(e)]);
        },
        None => {
            assert(pcs.drop_last() =~= seq![p1, p2]);
            assert(seq![p1, p2].drop_last() =~= seq![p1]);
            assert(seq![p1].drop_last() =~= Seq::<Seq<char>>::empty());
            assert(read_fold(Seq::<Seq<char>>::empty()) == (empty_entries, empty));
            assert(seq![p1].last() == p1);
            assert(read_fold(seq![p1]) == read_step((empty_entries, empty), p1));
            assert(read_fold(seq![p1]) == (empty_entries, empty + p1));
            assert(read_fold(seq![p1, p2]) == (empty_entries, empty + p1 + p2));
            assert(empty + p1 + p2 + nl =~= format_entry(e));
            assert(empty_entries.push(normalized(e)) =~= seq![normalized(e)]);
        },
    }
}

/// Adding an entry to a file and reading the file back gives the entries read
/// before, then the added one (a missing comment reads as an empty one).
pub proof fn read_back_added(s: Seq<char>, e: SpecEntry)
    requires
        at_boundary(s),
        storable(e),
    ensures
        read_entries(s + format_entry(e)) == read_entries(s).push(normalized(e)),
        at_boundary(s + format_entry(e)),
{
    let f = format_entry(e);
    lemma_format_pieces(e);
    lemma_split_incl_concat(s, f);
    assert(pieces(s + f) == pieces(s) + entry_pieces(e));
    lemma_read_entry_pieces(e);
    lemma_read_fold_concat(pieces(s), entry_pieces(e));
    assert(read_fold(pieces(s)).0 + seq![normalized(e)] =~= read_fold(pieces(s)).0.push(
        normalized(e),
    ));
}

/// A file written entry by entry reads back as those entries, in order (each
/// missing comment reading as an empty one).
pub proof fn read_back_written(es: Seq<SpecEntry>)
    requires
        forall|i: int| 0 <= i < es.len() ==> storable(#[trigger] es[i]),
    ensures
        read_entries(write_all(es)) == es.map_values(|e: SpecEntry| normalized(e)),
        at_boundary(write_all(es)),
    decreases es.len(),
{
    if es.len() == 0 {
        assert(read_entries(write_all(es)) =~= es.map_values(|e: SpecEntry| normalized(e)));
    } else {
        let init = es.drop_last();
        assert forall|i: int| 0 <= i < init.len() implies storable(#[trigger] init[i]) by {
            assert(init[i] == es[i]);
        }
        read_back_written(init);
        assert(storable(es[es.len() - 1]));
        read_back_added(write_all(init), es.last());
        assert(init.map_values(|e: SpecEntry| normalized(e)).push(normalized(es.last()))
            =~= es.map_values(|e: SpecEntry| normalized(e)));
    }
}

/// The stored text of an entry without its closing blank line.
pub open spec fn entry_body(e: SpecEntry) -> Seq<char> {
    e.path + seq!['\n'] + decimal(e.line as nat) + match e.comment {
        Some(c) => seq!['\n'] + c,
        None => Seq::<char>::empty(),
    }
}

/// The stored texts of the entries without their closing blank lines.
pub open spec fn bodies(es: Seq<SpecEntry>) -> Seq<Seq<char>> {
    es.map_values(|e: SpecEntry| entry_body(e))
}

proof fn lemma_sep_push(s: Seq<char>, c: char)
    ensures
        sep_fold(s.push(c)) == sep_step(sep_fold(s), c),
{
    assert(s.push(c).drop_last() =~= s);
}

proof fn lemma_sep_tail(a: Seq<char>, x: Seq<char>)
    requires
        !x.contains('\n'),
    ensures
        sep_fold(a + x) == (sep_fold(a).0, sep_fold(a).1 + x),
    decreases x.len(),
{
    if x.len() == 0 {
        assert(a + x =~= a);
        assert(sep_fold(a).1 + x =~= sep_fold(a).1);
    } else {
        let y = x.drop_last();
        assert(!y.contains('\n')) by {
            if y.contains('\n') {
                let i = choose|i: int| 0 <= i < y.len() && y[i] == '\n';
                assert(x[i] == '\n');
            }
        }
        lemma_sep_tail(a, y);
        assert(x.last() != '\n') by {
            assert(x[x.len() - 1] == x.last());
        }
        assert(a + x =~= (a + y).push(x.last()));
        lemma_sep_push(a + y, x.last());
        assert((sep_fold(a).1 + y).push(x.last()) =~= sep_fold(a).1 + x);
    }
}

proof fn lemma_sep_fold_entry(e: SpecEntry)
    requires
        storable(e),
    ensures
        sep_fold(format_entry(e)) == (seq![entry_body(e)], Seq::<char>::empty()),
{
    let dec = decimal(e.line as nat);
    lemma_decimal(e.line as nat);
    lemma_digits_no_newline(dec);
    let empty = Seq::<char>::empty();
    lemma_sep_tail(empty, e.path);
    assert(empty + e.path =~= e.path);
    assert(sep_fold(empty).0 =~= Seq::<Seq<char>>::empty());
    assert(e.path.last() != '\n') by {
        assert(e.path[e.path.len() - 1] == e.path.last());
    }
    let s1 = e.path.push('\n');
    lemma_sep_push(e.path, '\n');
    assert(sep_fold(s1) == (Seq::<Seq<char>>::empty(), s1));
    lemma_sep_tail(s1, dec);
    let s2 = s1 + dec;
    assert(dec.last() != '\n') by {
        assert(is_digit(dec[dec.len() - 1]));
    }
    assert(s2.last() == dec.last());
    let body = entry_body(e);
    match e.comment {
        Some(c) => {
            let s3 = s2.push('\n');
            lemma_sep_push(s2, '\n');
            lemma_sep_tail(s3, c);
            assert(c.last() != '\n') by {
                assert(c[c.len() - 1] == c.last());
            }
            assert(body =~= s3 + c);
            assert(body.last() == c.last());
        },
        None => {
            assert(body =~= s2);
        },
    }
    assert(sep_fold(body) == (Seq::<Seq<char>>::empty(), body));
    assert(body.last() != '\n');
    lemma_sep_push(body, '\n');
    lemma_sep_push(body.push('\n'), '\n');
    assert(body.push('\n').drop_last() =~= body);
    assert(format_entry(e) =~= body.push('\n').push('\n'));
    assert(Seq::<Seq<char>>::empty().push(body) =~= seq![body]);
}

proof fn lemma_blocks_written(es: Seq<SpecEntry>)
    requires
        forall|i: int| 0 <= i < es.len() ==> storable(#[trigger] es[i]),
    ensures
        sep_fold(write_all(es)) == (bodies(es), Seq::<char>::empty()),
        blocks(write_all(es)) == bodies(es).push(Seq::<char>::empty()),
    decreases es.len(),
{
    if es.len() == 0 {
        assert(bodies(es) =~= Seq::<Seq<char>>::empty());
    } else {
        let init = es.drop_last();
        assert forall|i: int| 0 <= i < init.len() implies storable(#[trigger] init[i]) by {
            assert(init[i] == es[i]);
        }
        lemma_blocks_written(init);
        assert(storable(es[es.len() - 1]));
        lemma_sep_fold_entry(es.last());
        lemma_sep_fold_concat(write_all(init), format_entry(es.last()));
        assert(bodies(init) + seq![entry_body(es.last())] =~= bodies(es));
    }
}

proof fn lemma_join_written(es: Seq<SpecEntry>)
    ensures
        join_blocks(bodies(es).push(Seq::<char>::empty())) == write_all(es),
        es.len() > 0 ==> join_blocks(bodies(es)) + blank_sep() == write_all(es),
    decreases es.len(),
{
    let empty = Seq::<char>::empty();
    lemma_join_push(bodies(es), empty);
    if es.len() == 0 {
        assert(bodies(es) =~= Seq::<Seq<char>>::empty());
    } else {
        let init = es.drop_last();
        lemma_join_written(init);
        assert(bodies(es) =~= bodies(init).push(entry_body(es.last())));
        lemma_join_push(bodies(init), entry_body(es.last()));
        assert(format_entry(es.last()) =~= entry_body(es.last()) + blank_sep());
        if init.len() == 0 {
            assert(write_all(init) =~= empty);
            assert(join_blocks(bodies(es)) + blank_sep() =~= write_all(es));
        } else {
            assert(join_blocks(bodies(es)) + blank_sep() =~= write_all(es));
        }
        assert(join_blocks(bodies(es)) + blank_sep() + empty =~= write_all(es));
    }
}

/// Removing entry `i` from a file written entry by entry gives the file written
/// without that entry, which reads back as the other entries.
pub proof fn remove_written(es: Seq<SpecEntry>, i: int)
    requires
        forall|k: int| 0 <= k < es.len() ==> storable(#[trigger] es[k]),
        0 <= i < es.len(),
    ensures
        join_blocks(without(blocks(write_all(es)), i)) == write_all(es.remove(i)),
        read_entries(join_blocks(without(blocks(write_all(es)), i))) == es.remove(i).map_values(
            |e: SpecEntry| normalized(e),
        ),
{
    lemma_blocks_written(es);
    let rest = es.remove(i);
    assert forall|k: int| 0 <= k < rest.len() implies storable(#[trigger] rest[k]) by {
        if k < i {
            assert(rest[k] == es[k]);
        } else {
            assert(rest[k] == es[k + 1]);
        }
    }
    assert(bodies(es).push(Seq::<char>::empty()).remove(i) =~= bodies(rest).push(
        Seq::<char>::empty(),
    ));
    lemma_join_written(rest);
    read_back_written(rest);
}

/// Removing an entry that does not exist leaves the file as it was.
pub proof fn remove_missing_keeps_text(s: Seq<char>, i: int)
    requires
        !(0 <= i < blocks(s).len()),
    ensures
        join_blocks(without(blocks(s), i)) == s,
{
    lemma_join_blocks(s);
}

/// Exchanging entries `a` and `b` of a file written entry by entry gives the file
/// written with those entries exchanged.
pub proof fn swap_written(es: Seq<SpecEntry>, a: int, b: int)
    requires
        forall|k: int| 0 <= k < es.len() ==> storable(#[trigger] es[k]),
        0 <= a < es.len(),
        0 <= b < es.len(),
    ensures
        join_blocks(swapped(blocks(write_all(es)), a, b)) == write_all(swapped(es, a, b)),
        read_entries(join_blocks(swapped(blocks(write_all(es)), a, b))) == swapped(
            es,
            a,
            b,
        ).map_values(|e: SpecEntry| normalized(e)),
{
    lemma_blocks_written(es);
    let sw = swapped(es, a, b);
    assert forall|k: int| 0 <= k < sw.len() implies storable(#[trigger] sw[k]) by {
        if k == b {
            assert(sw[k] == es[a]);
        } else if k == a {
            assert(sw[k] == es[b]);
        } else {
            assert(sw[k] == es[k]);
        }
    }
    assert(swapped(bodies(es).push(Seq::<char>::empty()), a, b) =~= bodies(sw).push(
        Seq::<char>::empty(),
    ));
    lemma_join_written(sw);
    read_back_written(sw);
}

/// Exchanging the same two entries twice restores a file written entry by entry.
pub proof fn swap_twice_written(es: Seq<SpecEntry>, a: int, b: int)
    requires
        forall|k: int| 0 <= k < es.len() ==> storable(#[trigger] es[k]),
        0 <= a < es.len(),
        0 <= b < es.len(),
    ensures
        join_blocks(
            swapped(blocks(join_blocks(swapped(blocks(write_all(es)), a, b))), a, b),
        ) == write_all(es),
{
    swap_written(es, a, b);
    let sw = swapped(es, a, b);
    assert forall|k: int| 0 <= k < sw.len() implies storable(#[trigger] sw[k]) by {
        if k == b {
            assert(sw[k] == es[a]);
        } else if k == a {
            assert(sw[k] == es[b]);
        } else {
            assert(sw[k] == es[k]);
        }
    }
    swap_written(sw, a, b);
    assert(swapped(sw, a, b) =~= es);
}

} // verus!
