//! The descriptor as it is written, and the proof that reading gives back
//! what was written.
//!
//! A descriptor that holds given records has one line per record: the
//! module path, `: `, and the dependency paths with single spaces between
//! them. Where no path holds white space or `:`, reading that text gives
//! the records back unchanged: every path reads as the very string that was
//! written, as a key and as a dependency alike.

use crate::descriptor::{
    descriptor_records, index_of, listed_deps, record_of, records_of, DepIndex, Record,
};
use crate::text::{
    fields, fields_from, first_at, is_space, lemma_first_at, lemma_first_at_is,
    lemma_first_at_none, lines_from, lines_of, occurs_at, skip_space, skip_space_back, trimmed,
    without_cr,
};
use vstd::prelude::*;

verus! {

/// A path as descriptors hold them: not empty, without white space and
/// without `:`.
pub open spec fn plain(s: Seq<char>) -> bool {
    s.len() > 0 && forall|i: int| 0 <= i < s.len() ==> !is_space(#[trigger] s[i]) && s[i] != ':'
}

/// A record of plain paths.
pub open spec fn plain_record(r: Record) -> bool {
    plain(r.path) && forall|j: int| 0 <= j < r.deps.len() ==> plain(#[trigger] r.deps[j])
}

/// The paths `deps` with single spaces between them.
pub open spec fn joined(deps: Seq<Seq<char>>) -> Seq<char>
    decreases deps.len(),
{
    if deps.len() == 0 {
        Seq::empty()
    } else if deps.len() == 1 {
        deps[0]
    } else {
        joined(deps.drop_last()) + seq![' '] + deps.last()
    }
}

/// The line that holds record `r`.
pub open spec fn record_line(r: Record) -> Seq<char> {
    r.path + seq![':', ' '] + joined(r.deps)
}

/// The text that holds `records`, one line each.
pub open spec fn descriptor_text(records: Seq<Record>) -> Seq<char>
    decreases records.len(),
{
    if records.len() == 0 {
        Seq::empty()
    } else {
        descriptor_text(records.drop_last()) + record_line(records.last()) + seq!['\n']
    }
}

/// The index that holds `records` as they are: record after record.
pub open spec fn index_as_written(records: Seq<Record>) -> DepIndex {
    DepIndex {
        keys: Seq::new(records.len(), |i: int| records[i].path),
        deps: Seq::new(records.len(), |i: int| records[i].deps),
    }
}

/// The first `c` of `a` is the first `c` of `a + r`.
pub proof fn lemma_first_in_prefix(a: Seq<char>, r: Seq<char>, c: char, i: int)
    requires
        0 <= i <= a.len(),
        first_at(a, seq![c], i) < a.len(),
    ensures
        first_at(a + r, seq![c], i) == first_at(a, seq![c], i),
{
    let k = first_at(a, seq![c], i);
    lemma_first_at(a, seq![c], i);
    assert((a + r).subrange(k, k + 1) =~= a.subrange(k, k + 1));
    assert forall|j: int| i <= j < k implies !occurs_at(a + r, seq![c], j) by {
        assert((a + r).subrange(j, j + 1) =~= a.subrange(j, j + 1));
        assert(!occurs_at(a, seq![c], j));
    }
    lemma_first_at_is(a + r, seq![c], i, k);
}

/// Where `a` holds no `c` from `i` on and `r` starts with `c`, the first
/// `c` of `a + r` is the start of `r`.
pub proof fn lemma_first_at_seam(a: Seq<char>, r: Seq<char>, c: char, i: int)
    requires
        0 <= i <= a.len(),
        first_at(a, seq![c], i) == a.len(),
        r.len() > 0,
        r[0] == c,
    ensures
        first_at(a + r, seq![c], i) == a.len(),
{
    lemma_first_at(a, seq![c], i);
    assert((a + r).subrange(a.len() as int, a.len() as int + 1) =~= seq![c]);
    assert forall|j: int| i <= j < a.len() implies !occurs_at(a + r, seq![c], j) by {
        assert((a + r).subrange(j, j + 1) =~= a.subrange(j, j + 1));
        assert(!occurs_at(a, seq![c], j));
    }
    lemma_first_at_is(a + r, seq![c], i, a.len() as int);
}

/// Where `s` holds no `c` from `from` on, there is no first `c`.
pub proof fn lemma_no_char(s: Seq<char>, c: char, from: int)
    requires
        0 <= from <= s.len(),
        forall|k: int| from <= k < s.len() ==> s[k] != c,
    ensures
        first_at(s, seq![c], from) == s.len(),
{
    assert forall|k: int| from <= k implies !occurs_at(s, seq![c], k) by {
        if occurs_at(s, seq![c], k) {
            assert(s.subrange(k, k + 1)[0] == c);
        }
    }
    lemma_first_at_none(s, seq![c], from);
}

/// Splitting `a`, a separator and a piece `b` without separator gives the
/// pieces of `a` and then `b`.
pub proof fn lemma_fields_append(a: Seq<char>, b: Seq<char>, sep: char, i: int)
    requires
        0 <= i <= a.len(),
        forall|k: int| 0 <= k < b.len() ==> b[k] != sep,
    ensures
        fields_from(a + seq![sep] + b, sep, i) == fields_from(a, sep, i).push(b),
    decreases a.len() - i,
{
    let s = a + seq![sep] + b;
    let tail = seq![sep] + b;
    assert(s =~= a + tail);
    let k = first_at(a, seq![sep], i);
    lemma_first_at(a, seq![sep], i);
    if k < a.len() {
        lemma_first_in_prefix(a, tail, sep, i);
        lemma_fields_append(a, b, sep, k + 1);
        assert(s.subrange(i, k) =~= a.subrange(i, k));
        assert(fields_from(s, sep, i) =~= fields_from(a, sep, i).push(b));
    } else {
        lemma_first_at_seam(a, tail, sep, i);
        assert(s.subrange(i, a.len() as int) =~= a.subrange(i, a.len() as int));
        assert forall|j: int| a.len() + 1 <= j < s.len() implies s[j] != sep by {
            assert(s[j] == b[j - a.len() - 1]);
        }
        lemma_no_char(s, sep, a.len() as int + 1);
        assert(s.subrange(a.len() as int + 1, s.len() as int) =~= b);
        assert(fields_from(s, sep, a.len() as int + 1) =~= seq![b]);
        assert(fields_from(s, sep, i) =~= fields_from(a, sep, i).push(b));
    }
}

/// Joined plain paths start as the first path starts and end as the last
/// path ends.
pub proof fn lemma_joined_ends(deps: Seq<Seq<char>>)
    requires
        deps.len() >= 1,
        forall|j: int| 0 <= j < deps.len() ==> plain(#[trigger] deps[j]),
    ensures
        joined(deps).len() > 0,
        joined(deps)[0] == deps[0][0],
        joined(deps).last() == deps.last().last(),
    decreases deps.len(),
{
    assert(plain(deps[0]));
    assert(plain(deps[deps.len() - 1]));
    if deps.len() > 1 {
        assert forall|j: int| 0 <= j < deps.drop_last().len() implies plain(
            #[trigger] deps.drop_last()[j],
        ) by {
            assert(plain(deps[j]));
        }
        lemma_joined_ends(deps.drop_last());
    }
}

/// Splitting joined plain paths at the spaces gives the paths back.
pub proof fn lemma_fields_joined(deps: Seq<Seq<char>>)
    requires
        deps.len() >= 1,
        forall|j: int| 0 <= j < deps.len() ==> plain(#[trigger] deps[j]),
    ensures
        fields(joined(deps), ' ') == deps,
    decreases deps.len(),
{
    let last = deps.last();
    assert(plain(deps[deps.len() - 1]));
    assert forall|k: int| 0 <= k < last.len() implies last[k] != ' ' by {
        assert(!is_space(last[k]));
    }
    if deps.len() == 1 {
        lemma_no_char(last, ' ', 0);
        assert(last.subrange(0, last.len() as int) =~= last);
        assert(fields(joined(deps), ' ') =~= deps);
    } else {
        let init = deps.drop_last();
        assert forall|j: int| 0 <= j < init.len() implies plain(#[trigger] init[j]) by {
            assert(plain(deps[j]));
        }
        lemma_fields_joined(init);
        lemma_fields_append(joined(init), last, ' ', 0);
        assert(init.push(last) =~= deps);
    }
}

/// A sequence that neither starts nor ends with white space is trimmed
/// already; with a space in front of it, trimming gives it back.
pub proof fn lemma_trimmed(s: Seq<char>)
    requires
        s.len() > 0 ==> !is_space(s[0]) && !is_space(s.last()),
    ensures
        trimmed(s) == s,
        trimmed(seq![' '] + s) == s,
{
    assert(skip_space(s, 0) == 0);
    assert(skip_space_back(s, 0, s.len() as int) == s.len());
    assert(s.subrange(0, s.len() as int) =~= s);
    let x = seq![' '] + s;
    assert(is_space(x[0]));
    if s.len() > 0 {
        assert(x[1] == s[0]);
        assert(skip_space(x, 1) == 1);
        assert(skip_space(x, 0) == 1);
        assert(x[x.len() - 1] == s.last());
        assert(skip_space_back(x, 1, x.len() as int) == x.len());
    } else {
        assert(skip_space(x, 1) == 1);
        assert(skip_space(x, 0) == 1);
        assert(skip_space_back(x, 1, 1) == 1);
    }
    assert(x.subrange(1, x.len() as int) =~= s);
}

/// Reading the line of a plain record gives the record back.
pub proof fn lemma_record_round_trip(r: Record)
    requires
        plain_record(r),
    ensures
        record_of(record_line(r)) == Some(r),
{
    let line = record_line(r);
    let p = r.path.len() as int;
    let j = joined(r.deps);
    assert(line.subrange(p, p + 1) =~= seq![':']);
    assert forall|k: int| 0 <= k < p implies !occurs_at(line, seq![':'], k) by {
        if occurs_at(line, seq![':'], k) {
            assert(line.subrange(k, k + 1)[0] == ':');
            assert(line[k] == r.path[k]);
        }
    }
    lemma_first_at_is(line, seq![':'], 0, p);
    assert(line.subrange(0, p) =~= r.path);
    assert(line.subrange(p + 1, line.len() as int) =~= seq![' '] + j);
    lemma_trimmed(r.path);
    if r.deps.len() == 0 {
        lemma_trimmed(j);
        assert(listed_deps(j) =~= r.deps);
    } else {
        lemma_joined_ends(r.deps);
        assert(plain(r.deps[0]));
        assert(plain(r.deps[r.deps.len() - 1]));
        lemma_trimmed(j);
        lemma_fields_joined(r.deps);
    }
}

/// The line of a plain record holds no line end and does not end with a
/// carriage return.
pub proof fn lemma_record_line_is_one_line(r: Record)
    requires
        plain_record(r),
    ensures
        forall|k: int| 0 <= k < record_line(r).len() ==> record_line(r)[k] != '\n',
        without_cr(record_line(r)) == record_line(r),
{
    let line = record_line(r);
    let p = r.path.len() as int;
    lemma_joined_chars(r.deps);
    assert forall|k: int| 0 <= k < line.len() implies line[k] != '\n' && line[k] != '\r' by {
        if k < p {
            assert(line[k] == r.path[k]);
            assert(!is_space(r.path[k]));
        } else if k >= p + 2 {
            assert(line[k] == joined(r.deps)[k - p - 2]);
        }
    }
}

/// Joined plain paths hold no white space but the space.
pub proof fn lemma_joined_chars(deps: Seq<Seq<char>>)
    requires
        forall|j: int| 0 <= j < deps.len() ==> plain(#[trigger] deps[j]),
    ensures
        forall|k: int|
            0 <= k < joined(deps).len() ==> joined(deps)[k] != '\n' && joined(deps)[k] != '\r',
    decreases deps.len(),
{
    if deps.len() == 1 {
        assert(plain(deps[0]));
        assert forall|k: int| 0 <= k < deps[0].len() implies deps[0][k] != '\n' && deps[0][k]
            != '\r' by {
            assert(!is_space(deps[0][k]));
        }
    } else if deps.len() > 1 {
        let init = deps.drop_last();
        let last = deps.last();
        assert forall|j: int| 0 <= j < init.len() implies plain(#[trigger] init[j]) by {
            assert(plain(deps[j]));
        }
        lemma_joined_chars(init);
        assert(plain(deps[deps.len() - 1]));
        let n = joined(init).len() as int;
        assert forall|k: int| 0 <= k < joined(deps).len() implies joined(deps)[k] != '\n'
            && joined(deps)[k] != '\r' by {
            if k < n {
                assert(joined(deps)[k] == joined(init)[k]);
            } else if k > n {
                assert(joined(deps)[k] == last[k - n - 1]);
                assert(!is_space(last[k - n - 1]));
            }
        }
    }
}

/// The lines of a text of whole lines, followed by one more whole line, are
/// the lines of the text and then that line.
pub proof fn lemma_lines_append(t: Seq<char>, l: Seq<char>, i: int)
    requires
        0 <= i <= t.len(),
        t.len() > 0 ==> t.last() == '\n',
        forall|k: int| 0 <= k < l.len() ==> l[k] != '\n',
        without_cr(l) == l,
    ensures
        lines_from(t + l + seq!['\n'], i) == lines_from(t, i).push(l),
    decreases t.len() - i,
{
    let s = t + l + seq!['\n'];
    let tail = l + seq!['\n'];
    assert(s =~= t + tail);
    if i == t.len() {
        assert forall|j: int| i <= j < i + l.len() implies !occurs_at(s, seq!['\n'], j) by {
            if occurs_at(s, seq!['\n'], j) {
                assert(s.subrange(j, j + 1)[0] == '\n');
                assert(s[j] == l[j - i]);
            }
        }
        assert(s.subrange(i + l.len(), i + l.len() + 1) =~= seq!['\n']);
        lemma_first_at_is(s, seq!['\n'], i, i + l.len());
        assert(s.subrange(i, i + l.len()) =~= l);
        assert(lines_from(s, s.len() as int) =~= Seq::empty());
        assert(lines_from(t, i) =~= Seq::empty());
        assert(lines_from(s, i) =~= lines_from(t, i).push(l));
    } else {
        let k = first_at(t, seq!['\n'], i);
        lemma_first_at(t, seq!['\n'], i);
        assert(k < t.len()) by {
            if k == t.len() {
                assert(t.subrange(t.len() - 1, t.len() as int) =~= seq!['\n']);
                assert(occurs_at(t, seq!['\n'], t.len() - 1));
            }
        }
        lemma_first_in_prefix(t, tail, '\n', i);
        lemma_lines_append(t, l, k + 1);
        assert(s.subrange(i, k) =~= t.subrange(i, k));
        assert(lines_from(s, i) =~= lines_from(t, i).push(l));
    }
}

/// Reading a written descriptor gives back the records that were written:
/// every module path and every dependency path of the index is the very
/// string that the descriptor holds, so a dependency that names a module
/// with an entry is identical to that entry's key.
pub proof fn lemma_descriptor_round_trip(records: Seq<Record>)
    requires
        forall|i: int| 0 <= i < records.len() ==> plain_record(#[trigger] records[i]),
    ensures
        descriptor_records(descriptor_text(records)) == records,
        descriptor_text(records).len() > 0 ==> descriptor_text(records).last() == '\n',
    decreases records.len(),
{
    if records.len() == 0 {
        assert(lines_of(descriptor_text(records)) =~= Seq::empty());
        assert(descriptor_records(descriptor_text(records)) =~= records);
    } else {
        let init = records.drop_last();
        let last = records.last();
        assert forall|i: int| 0 <= i < init.len() implies plain_record(#[trigger] init[i]) by {
            assert(plain_record(records[i]));
        }
        assert(plain_record(records[records.len() - 1]));
        lemma_descriptor_round_trip(init);
        lemma_record_line_is_one_line(last);
        lemma_record_round_trip(last);
        let t = descriptor_text(init);
        lemma_lines_append(t, record_line(last), 0);
        let ls = lines_of(t);
        assert(ls.push(record_line(last)).drop_last() =~= ls);
        assert(records_of(ls.push(record_line(last))) == records_of(ls).push(last));
        assert(init.push(last) =~= records);
    }
}

/// Records with distinct paths are indexed as they are, one entry each.
pub proof fn lemma_index_as_written(records: Seq<Record>)
    requires
        forall|i: int, j: int|
            0 <= i < j < records.len() ==> (#[trigger] records[i]).path != (
            #[trigger] records[j]).path,
    ensures
        index_of(records) == index_as_written(records),
    decreases records.len(),
{
    if records.len() == 0 {
        assert(index_as_written(records).keys =~= Seq::empty());
        assert(index_as_written(records).deps =~= Seq::empty());
    } else {
        let init = records.drop_last();
        let last = records.last();
        assert forall|i: int, j: int| 0 <= i < j < init.len() implies (#[trigger] init[i]).path
            != (#[trigger] init[j]).path by {
            assert(records[i].path != records[j].path);
        }
        lemma_index_as_written(init);
        let before = index_as_written(init);
        assert(!before.has(last.path)) by {
            if before.keys.contains(last.path) {
                let k = before.keys.index_of(last.path);
                assert(records[k].path != records[records.len() - 1].path);
            }
        }
        assert(before.insert(last.path, last.deps).keys =~= index_as_written(records).keys);
        assert(before.insert(last.path, last.deps).deps =~= index_as_written(records).deps);
    }
}

/// A descriptor written from records of plain paths, no two for the same
/// module, reads into the index that holds these records as they are. A
/// dependency written with the path of a module that has a record is
/// therefore, in the index, the very key of that module.
pub proof fn lemma_written_paths_read_identically(records: Seq<Record>)
    requires
        forall|i: int| 0 <= i < records.len() ==> plain_record(#[trigger] records[i]),
        forall|i: int, j: int|
            0 <= i < j < records.len() ==> (#[trigger] records[i]).path != (
            #[trigger] records[j]).path,
    ensures
        index_of(descriptor_records(descriptor_text(records))) == index_as_written(records),
        forall|i: int, p: int, j: int|
            0 <= i < records.len() && 0 <= p < records[i].deps.len() && 0 <= j < records.len()
                && records[i].deps[p] == records[j].path ==> #[trigger] index_of(
                descriptor_records(descriptor_text(records)),
            ).deps[i][p] == #[trigger] index_of(
                descriptor_records(descriptor_text(records)),
            ).keys[j],
{
    lemma_descriptor_round_trip(records);
    lemma_index_as_written(records);
}

} // verus!
