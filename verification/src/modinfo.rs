//! The live module table.
//!
//! The table holds one loaded module per line, in six fields separated by
//! single spaces: name, size in bytes (decimal), reference count (decimal),
//! the modules that use it (each followed by `,`, or a single `-` for none),
//! a field that is not read, and the load address (`0x` and hexadecimal
//! digits). A table with one line that is not of this form has no reading.

use crate::error::Error;
use crate::number::{bounded_value, parse_unsigned};
use crate::text::{
    fields, from_chars, has_prefix, lines, lines_of, pattern_of, same_chars, split, starts_with,
    string_views, to_chars, to_strings, views,
};
use vstd::prelude::*;
use vstd::slice::slice_subrange;

verus! {

/// What the table says of one loaded module, as a mathematical value.
pub struct ModRecord {
    pub name: Seq<char>,
    pub mem_size: nat,
    pub mem_offset: nat,
    pub instances: nat,
    pub dependencies: Seq<Seq<char>>,
}

/// What the table says of one loaded module.
#[derive(Debug)]
pub struct ModInfo {
    pub name: String,
    pub mem_size: usize,
    /// The load address; the kernel shows it to privileged readers only.
    pub mem_offset: usize,
    pub instances: u8,
    /// The modules that use this one: the direction opposite to the
    /// dependencies of the descriptor.
    pub dependencies: Vec<String>,
}

impl View for ModInfo {
    type V = ModRecord;

    open spec fn view(&self) -> ModRecord {
        ModRecord {
            name: self.name@,
            mem_size: self.mem_size as nat,
            mem_offset: self.mem_offset as nat,
            instances: self.instances as nat,
            dependencies: string_views(self.dependencies@),
        }
    }
}

/// The views of a list of records.
pub open spec fn record_views(v: Seq<ModInfo>) -> Seq<ModRecord> {
    Seq::new(v.len(), |i: int| v[i]@)
}

/// The names in the fourth field: none for `-`, else the pieces before each
/// `,` of a field that ends with `,`.
pub open spec fn dependents_in(field: Seq<char>) -> Option<Seq<Seq<char>>> {
    if field == seq!['-'] {
        Some(Seq::empty())
    } else if field.len() > 0 && field.last() == ',' {
        Some(fields(field.drop_last(), ','))
    } else {
        None
    }
}

/// The address in the sixth field: hexadecimal digits after `0x`.
pub open spec fn offset_in(field: Seq<char>) -> Option<nat> {
    if starts_with(field, seq!['0', 'x']) {
        bounded_value(field.skip(2), 16, usize::MAX as nat)
    } else {
        None
    }
}

/// The record that a line of the table holds, if it is well formed.
pub open spec fn record_in(line: Seq<char>) -> Option<ModRecord> {
    let f = fields(line, ' ');
    if f.len() == 6 {
        match (
            bounded_value(f[1], 10, usize::MAX as nat),
            bounded_value(f[2], 10, u8::MAX as nat),
            dependents_in(f[3]),
            offset_in(f[5]),
        ) {
            (Some(size), Some(count), Some(users), Some(offset)) => Some(
                ModRecord {
                    name: f[0],
                    mem_size: size,
                    mem_offset: offset,
                    instances: count,
                    dependencies: users,
                },
            ),
            _ => None,
        }
    } else {
        None
    }
}

/// The records of a sequence of lines, if every line is well formed.
pub open spec fn records_in(lines: Seq<Seq<char>>) -> Option<Seq<ModRecord>>
    decreases lines.len(),
{
    if lines.len() == 0 {
        Some(Seq::empty())
    } else {
        match (records_in(lines.drop_last()), record_in(lines.last())) {
            (Some(rs), Some(r)) => Some(rs.push(r)),
            _ => None,
        }
    }
}

/// The records of a table text, if every line of it is well formed.
pub open spec fn table_records(text: Seq<char>) -> Option<Seq<ModRecord>> {
    records_in(lines_of(text))
}

/// Once a prefix of the lines holds a malformed line, the table has no
/// reading.
pub proof fn lemma_malformed(lines: Seq<Seq<char>>, n: int)
    requires
        0 <= n <= lines.len(),
        records_in(lines.take(n)) is None,
    ensures
        records_in(lines) is None,
    decreases lines.len() - n,
{
    if n < lines.len() {
        assert(lines.take(n + 1).drop_last() =~= lines.take(n));
        lemma_malformed(lines, n + 1);
    } else {
        assert(lines.take(n) =~= lines);
    }
}

/// The names in the fourth field.
fn parse_dependents(field: &[char]) -> (r: Option<Vec<String>>)
    ensures
        match r {
            Some(v) => dependents_in(field@) == Some(string_views(v@)),
            None => dependents_in(field@) is None,
        },
{
    let dash = pattern_of('-');
    if same_chars(field, dash.as_slice()) {
        let v: Vec<String> = Vec::new();
        assert(string_views(v@) =~= Seq::empty());
        Some(v)
    } else if field.len() > 0 && field[field.len() - 1] == ',' {
        let body = slice_subrange(field, 0, field.len() - 1);
        assert(body@ =~= field@.drop_last());
        let pieces = split(body, ',');
        Some(to_strings(&pieces))
    } else {
        None
    }
}

/// The address in the sixth field.
fn parse_offset(field: &[char]) -> (r: Option<usize>)
    ensures
        match r {
            Some(v) => offset_in(field@) == Some(v as nat),
            None => offset_in(field@) is None,
        },
{
    let mut prefix: Vec<char> = Vec::new();
    prefix.push('0');
    prefix.push('x');
    assert(prefix@ =~= seq!['0', 'x']);
    if has_prefix(field, prefix.as_slice()) {
        let digits = slice_subrange(field, 2, field.len());
        parse_unsigned(digits, true, usize::MAX)
    } else {
        None
    }
}

/// The record that a line of the table holds, if it is well formed.
pub fn parse_module_line(line: &[char]) -> (r: Option<ModInfo>)
    ensures
        match r {
            Some(m) => record_in(line@) == Some(m@),
            None => record_in(line@) is None,
        },
{
    let f = split(line, ' ');
    if f.len() != 6 {
        return None;
    }
    assert(views(f@)[0] == f@[0]@ && views(f@)[1] == f@[1]@ && views(f@)[2] == f@[2]@ && views(
        f@,
    )[3] == f@[3]@ && views(f@)[5] == f@[5]@);
    let size = match parse_unsigned(f[1].as_slice(), false, usize::MAX) {
        Some(v) => v,
        None => {
            return None;
        },
    };
    let count = match parse_unsigned(f[2].as_slice(), false, 255) {
        Some(v) => v,
        None => {
            return None;
        },
    };
    let users = match parse_dependents(f[3].as_slice()) {
        Some(v) => v,
        None => {
            return None;
        },
    };
    let offset = match parse_offset(f[5].as_slice()) {
        Some(v) => v,
        None => {
            return None;
        },
    };
    Some(
        ModInfo {
            name: from_chars(f[0].as_slice()),
            mem_size: size,
            mem_offset: offset,
            instances: count as u8,
            dependencies: users,
        },
    )
}

/// Reads the live module table: one record per line, in the order of the
/// lines. A single malformed line fails the whole reading.
pub fn lsmod(table: &str) -> (r: Result<Vec<ModInfo>, Error>)
    ensures
        match r {
            Ok(v) => table_records(table@) == Some(record_views(v@)),
            Err(e) => table_records(table@) is None && e == Error::LiveTableMalformed,
        },
{
    let text = to_chars(table);
    let ls = lines(text.as_slice());
    let mut out: Vec<ModInfo> = Vec::new();
    let mut i: usize = 0;
    assert(record_views(out@) =~= Seq::empty());
    while i < ls.len()
        invariant
            i <= ls.len(),
            views(ls@) == lines_of(table@),
            records_in(views(ls@).take(i as int)) == Some(record_views(out@)),
        decreases ls.len() - i,
    {
        assert(views(ls@).take(i + 1).drop_last() =~= views(ls@).take(i as int));
        assert(views(ls@).take(i + 1).last() == ls@[i as int]@);
        match parse_module_line(ls[i].as_slice()) {
            Some(m) => {
                let ghost before = record_views(out@);
                let ghost rec = m@;
                out.push(m);
                assert(record_views(out@) =~= before.push(rec));
            },
            None => {
                proof {
                    lemma_malformed(views(ls@), i + 1);
                }
                return Err(Error::LiveTableMalformed);
            },
        }
        i += 1;
    }
    assert(views(ls@).take(ls.len() as int) =~= views(ls@));
    Ok(out)
}

} // verus!
