//! The engine itself: framing a log file into lines, checking the
//! write-ahead log, planning a recovery replay, planning one `apply` run,
//! and reading the audit log.  Everything here is pure: the surrounding
//! process reads the files, hands their content in, and performs the
//! planned writes in the given order.

use vstd::prelude::*;
use vstd::string::*;
use crate::codec::{
    encode_ops_line, encode_wal_line, ops_line, parse_ops_line, parse_wal_line, sp_ops_entry,
    sp_wal, wal_line,
};
use crate::fsmodel::{lemma_replay_after_prefix, write_all, DirModel};
use crate::text::{from_chars, to_chars};
use crate::types::{
    EngineError, OpView, OpsLogEntry, OpsLogEntryView, Transaction, WalEntry, WalEntryView,
    WriteOperation,
};

verus! {

// ---------------------------------------------------------------------------
// Framing: a file's text as a sequence of lines
// ---------------------------------------------------------------------------
/// The length of the first field of `s` before the separator `sep`, or the
/// whole length if `sep` does not occur.
pub open spec fn first_sep(s: Seq<char>, sep: char) -> int
    decreases s.len(),
{
    if s.len() == 0 {
        0
    } else if s[0] == sep {
        0
    } else {
        1 + first_sep(s.skip(1), sep)
    }
}

pub proof fn lemma_first_sep(s: Seq<char>, sep: char)
    ensures
        0 <= first_sep(s, sep) <= s.len(),
        forall|i: int| 0 <= i < first_sep(s, sep) ==> s[i] != sep,
        first_sep(s, sep) < s.len() ==> s[first_sep(s, sep)] == sep,
    decreases s.len(),
{
    if s.len() > 0 && s[0] != sep {
        lemma_first_sep(s.skip(1), sep);
        let k = first_sep(s, sep);
        assert forall|i: int| 0 <= i < k implies s[i] != sep by {
            if i > 0 {
                assert(s.skip(1)[i - 1] == s[i]);
            }
        }
        if k < s.len() {
            assert(s.skip(1)[k - 1] == s[k]);
        }
    }
}

/// If the first `k` characters are not the separator and the one at `k`
/// is (or `k` is the end), the first field has length `k`.
pub proof fn lemma_first_sep_is(s: Seq<char>, sep: char, k: int)
    requires
        0 <= k <= s.len(),
        forall|i: int| 0 <= i < k ==> s[i] != sep,
        k < s.len() ==> s[k] == sep,
    ensures
        first_sep(s, sep) == k,
    decreases k,
{
    if k > 0 {
        lemma_first_sep_is(s.skip(1), sep, k - 1);
    }
}

/// The fields of `s` separated by `sep`; empty fields are kept, and text
/// with no separator is one field.
pub open spec fn split_sep(s: Seq<char>, sep: char) -> Seq<Seq<char>>
    decreases s.len(),
    via split_sep_dec
{
    let k = first_sep(s, sep);
    if k == s.len() {
        seq![s]
    } else {
        seq![s.take(k)] + split_sep(s.skip(k + 1), sep)
    }
}

#[via_fn]
proof fn split_sep_dec(s: Seq<char>, sep: char) {
    lemma_first_sep(s, sep);
}

/// The lines of a log file.
pub open spec fn line_split(s: Seq<char>) -> Seq<Seq<char>> {
    split_sep(s, '\n')
}

fn copy_range(s: &Vec<char>, a: usize, b: usize) -> (r: Vec<char>)
    requires
        a <= b <= s@.len(),
    ensures
        r@ == s@.subrange(a as int, b as int),
{
    let mut r: Vec<char> = Vec::new();
    let mut i: usize = a;
    while i < b
        invariant
            a <= i <= b <= s@.len(),
            r@ == s@.subrange(a as int, i as int),
        decreases b - i,
    {
        r.push(s[i]);
        i = i + 1;
        proof {
            assert(r@ =~= s@.subrange(a as int, i as int));
        }
    }
    r
}

/// Split a file's characters at every separator occurrence.
pub fn split_sep_chars(s: &Vec<char>, sep: char) -> (r: Vec<Vec<char>>)
    ensures
        r@.map_values(|l: Vec<char>| l@) == split_sep(s@, sep),
{
    let mut out: Vec<Vec<char>> = Vec::new();
    let mut p: usize = 0;
    proof {
        assert(s@.skip(0) =~= s@);
        assert(out@.map_values(|l: Vec<char>| l@) =~= Seq::<Seq<char>>::empty());
    }
    loop
        invariant
            p <= s@.len(),
            split_sep(s@, sep) == out@.map_values(|l: Vec<char>| l@) + split_sep(
                s@.skip(p as int),
                sep,
            ),
        decreases s@.len() - p,
    {
        let mut j: usize = p;
        while j < s.len() && s[j] != sep
            invariant
                p <= j <= s@.len(),
                forall|t: int| p <= t < j ==> s@[t] != sep,
            decreases s.len() - j,
        {
            j = j + 1;
        }
        proof {
            let suf = s@.skip(p as int);
            assert forall|t: int| 0 <= t < j - p implies suf[t] != sep by {
                assert(suf[t] == s@[p + t]);
            }
            if j < s@.len() {
                assert(suf[j - p] == s@[j as int]);
            }
            lemma_first_sep_is(suf, sep, j - p);
        }
        let field = copy_range(s, p, j);
        proof {
            assert(field@ =~= s@.skip(p as int).take(j - p));
        }
        if j == s.len() {
            out.push(field);
            proof {
                assert(s@.skip(p as int).take(j - p) =~= s@.skip(p as int));
                assert(split_sep(s@.skip(p as int), sep) =~= seq![s@.skip(p as int)]);
                assert(out@.map_values(|l: Vec<char>| l@) =~= out@.drop_last().map_values(
                    |l: Vec<char>| l@,
                ).push(s@.skip(p as int)));
                assert(out@.drop_last().map_values(|l: Vec<char>| l@) + seq![s@.skip(p as int)]
                    =~= out@.map_values(|l: Vec<char>| l@));
                assert(split_sep(s@, sep) =~= out@.map_values(|l: Vec<char>| l@));
            }
            return out;
        }
        out.push(field);
        proof {
            let suf = s@.skip(p as int);
            assert(split_sep(suf, sep) == seq![suf.take(j - p)] + split_sep(suf.skip(j - p + 1), sep));
            assert(suf.skip(j - p + 1) =~= s@.skip(j + 1));
            assert(out@.map_values(|l: Vec<char>| l@) =~= out@.drop_last().map_values(
                |l: Vec<char>| l@,
            ).push(suf.take(j - p)));
            assert((out@.drop_last().map_values(|l: Vec<char>| l@) + (seq![suf.take(j - p)]
                + split_sep(s@.skip(j + 1), sep))) =~= (out@.map_values(|l: Vec<char>| l@)
                + split_sep(s@.skip(j + 1), sep)));
        }
        p = j + 1;
    }
}

// ---------------------------------------------------------------------------
// Blank lines and scanning for the first bad line
// ---------------------------------------------------------------------------
/// A line holding only spaces, tabs or carriage returns carries no record.
pub open spec fn is_blank(l: Seq<char>) -> bool {
    forall|i: int| 0 <= i < l.len() ==> (l[i] == ' ' || l[i] == '\t' || l[i] == '\r')
}

fn check_blank(l: &Vec<char>) -> (r: bool)
    ensures
        r == is_blank(l@),
{
    let mut i: usize = 0;
    while i < l.len()
        invariant
            i <= l@.len(),
            forall|t: int| 0 <= t < i ==> (l@[t] == ' ' || l@[t] == '\t' || l@[t] == '\r'),
        decreases l.len() - i,
    {
        let c = l[i];
        if c != ' ' && c != '\t' && c != '\r' {
            return false;
        }
        i = i + 1;
    }
    true
}

/// The index of the first line the given test rejects, if any.
pub open spec fn first_bad(lines: Seq<Seq<char>>, ok: spec_fn(Seq<char>) -> bool) -> Option<int>
    decreases lines.len(),
{
    if lines.len() == 0 {
        None
    } else if !ok(lines[0]) {
        Some(0)
    } else {
        match first_bad(lines.skip(1), ok) {
            None => None,
            Some(k) => Some(k + 1),
        }
    }
}

pub proof fn lemma_first_bad_at(lines: Seq<Seq<char>>, ok: spec_fn(Seq<char>) -> bool, k: int)
    requires
        0 <= k <= lines.len(),
        forall|t: int| 0 <= t < k ==> ok(lines[t]),
        k < lines.len() ==> !ok(lines[k]),
    ensures
        first_bad(lines, ok) == if k == lines.len() {
            Option::<int>::None
        } else {
            Option::<int>::Some(k)
        },
    decreases k,
{
    if k > 0 {
        lemma_first_bad_at(lines.skip(1), ok, k - 1);
    }
}

// ---------------------------------------------------------------------------
// Operation paths that may not escape the root
// ---------------------------------------------------------------------------
/// One path segment that neither names the current or parent directory
/// nor is empty.
pub open spec fn seg_ok(seg: Seq<char>) -> bool {
    seg.len() > 0 && seg != seq!['.'] && seg != seq!['.', '.']
}

/// A relative path that stays inside the root: non-empty, no backslashes,
/// and every `/`-separated segment a plain name.  An absolute path has an
/// empty first segment and is rejected with the rest.
pub open spec fn is_safe_path(p: Seq<char>) -> bool {
    &&& p.len() > 0
    &&& forall|i: int| 0 <= i < p.len() ==> p[i] != '\\'
    &&& forall|k: int| 0 <= k < split_sep(p, '/').len() ==> seg_ok(split_sep(p, '/')[k])
}

/// Decide [`is_safe_path`].
pub fn path_is_safe(path: &str) -> (r: bool)
    ensures
        r == is_safe_path(path@),
{
    let chars = to_chars(path);
    if chars.len() == 0 {
        return false;
    }
    let mut i: usize = 0;
    while i < chars.len()
        invariant
            i <= chars@.len(),
            chars@ == path@,
            forall|t: int| 0 <= t < i ==> chars@[t] != '\\',
        decreases chars.len() - i,
    {
        if chars[i] == '\\' {
            return false;
        }
        i = i + 1;
    }
    let segs = split_sep_chars(&chars, '/');
    let mut k: usize = 0;
    while k < segs.len()
        invariant
            k <= segs@.len(),
            chars@ == path@,
            segs@.map_values(|l: Vec<char>| l@) == split_sep(path@, '/'),
            forall|t: int| 0 <= t < k ==> seg_ok(split_sep(path@, '/')[t]),
        decreases segs.len() - k,
    {
        let seg = &segs[k];
        proof {
            assert(split_sep(path@, '/')[k as int] == segs@[k as int]@);
        }
        if seg.len() == 0 {
            return false;
        }
        if seg.len() == 1 && seg[0] == '.' {
            proof {
                assert(seg@ =~= seq!['.']);
            }
            return false;
        }
        if seg.len() == 2 && seg[0] == '.' && seg[1] == '.' {
            proof {
                assert(seg@ =~= seq!['.', '.']);
            }
            return false;
        }
        proof {
            if seg@ == seq!['.'] {
                assert(seg@.len() == 1 && seg@[0] == '.');
                assert(false);
            }
            if seg@ == seq!['.', '.'] {
                assert(seg@.len() == 2 && seg@[0] == '.' && seg@[1] == '.');
                assert(false);
            }
        }
        k = k + 1;
    }
    true
}

// ---------------------------------------------------------------------------
// Verifying the write-ahead log
// ---------------------------------------------------------------------------
/// A line of the write-ahead-log file in order: blank, or one record of
/// the grammar.
pub open spec fn wal_line_ok(l: Seq<char>) -> bool {
    is_blank(l) || sp_wal(l) is Some
}

/// A line of the ops-log file in order.
pub open spec fn ops_line_ok(l: Seq<char>) -> bool {
    is_blank(l) || sp_ops_entry(l) is Some
}

pub open spec fn wal_ok_fn() -> spec_fn(Seq<char>) -> bool {
    |l: Seq<char>| wal_line_ok(l)
}

pub open spec fn ops_ok_fn() -> spec_fn(Seq<char>) -> bool {
    |l: Seq<char>| ops_line_ok(l)
}

/// The structural check of the write-ahead-log file: the index of its
/// first malformed line, if any.
pub open spec fn wal_verify_result(content: Seq<char>) -> Option<int> {
    first_bad(line_split(content), wal_ok_fn())
}

/// Check the whole write-ahead-log file structurally without touching
/// anything: success exactly when every non-blank line is a record of the
/// grammar, the first malformed line's index otherwise.
pub fn verify_wal_content(content: &str) -> (r: Result<(), EngineError>)
    ensures
        match wal_verify_result(content@) {
            None => r is Ok,
            Some(k) => r == Err::<(), EngineError>(EngineError::Malformed { line: k as usize }),
        },
{
    let chars = to_chars(content);
    let lines = split_sep_chars(&chars, '\n');
    let ghost lsv = line_split(content@);
    let mut i: usize = 0;
    while i < lines.len()
        invariant
            i <= lines@.len(),
            lines@.map_values(|l: Vec<char>| l@) == lsv,
            lsv == line_split(content@),
            forall|t: int| 0 <= t < i ==> wal_line_ok(lsv[t]),
        decreases lines.len() - i,
    {
        let line = &lines[i];
        proof {
            assert(lsv[i as int] == lines@[i as int]@);
        }
        if !check_blank(line) {
            let ls = from_chars(line);
            match parse_wal_line(ls.as_str()) {
                Some(_) => {},
                None => {
                    proof {
                        assert(!wal_line_ok(lsv[i as int]));
                        assert(!wal_ok_fn()(lsv[i as int]));
                        assert(forall|t: int| 0 <= t < i ==> wal_ok_fn()(lsv[t]));
                        lemma_first_bad_at(lsv, wal_ok_fn(), i as int);
                    }
                    return Err(EngineError::Malformed { line: i });
                },
            }
        }
        i = i + 1;
    }
    proof {
        assert(forall|t: int| 0 <= t < lsv.len() ==> wal_ok_fn()(lsv[t]));
        lemma_first_bad_at(lsv, wal_ok_fn(), lsv.len() as int);
    }
    Ok(())
}

// ---------------------------------------------------------------------------
// Recovery: replaying the write-ahead log
// ---------------------------------------------------------------------------
/// The operations one log line contributes to a replay.
pub open spec fn line_ops(l: Seq<char>) -> Seq<OpView> {
    if is_blank(l) {
        Seq::empty()
    } else {
        sp_wal(l).unwrap().operations
    }
}

/// Every recorded operation of the log, in file order then entry order.
pub open spec fn wal_ops_of_lines(lines: Seq<Seq<char>>) -> Seq<OpView>
    decreases lines.len(),
{
    if lines.len() == 0 {
        Seq::empty()
    } else {
        line_ops(lines[0]) + wal_ops_of_lines(lines.skip(1))
    }
}

pub open spec fn ops_all_safe(ops: Seq<OpView>) -> bool {
    forall|k: int| 0 <= k < ops.len() ==> is_safe_path(ops[k].path)
}

/// What stops a replay, scanning the lines in order: the first malformed
/// line, or a recorded operation whose path could escape the root.
pub open spec fn plan_problem(lines: Seq<Seq<char>>, idx: int) -> Option<EngineError>
    decreases lines.len(),
{
    if lines.len() == 0 {
        None
    } else if !wal_line_ok(lines[0]) {
        Some(EngineError::Malformed { line: idx as usize })
    } else if !ops_all_safe(line_ops(lines[0])) {
        Some(EngineError::UnsafePath)
    } else {
        plan_problem(lines.skip(1), idx + 1)
    }
}

/// An owned copy of one operation.
pub fn clone_op(op: &WriteOperation) -> (r: WriteOperation)
    ensures
        r@ == op@,
{
    WriteOperation { path: op.path.clone(), content: op.content.clone() }
}

/// The ordered list of atomic writes a recovery run must perform: every
/// operation of every recorded entry, in file order then entry order.
/// After the caller has performed them all it may clear the log; nothing
/// is to be mutated when an error comes back.
pub fn recovery_plan(content: &str) -> (r: Result<Vec<WriteOperation>, EngineError>)
    ensures
        match plan_problem(line_split(content@), 0) {
            Some(err) => r == Err::<Vec<WriteOperation>, EngineError>(err),
            None => (r matches Ok(ops) && ops@.map_values(|op: WriteOperation| op@)
                == wal_ops_of_lines(line_split(content@)) && ops_all_safe(
                ops@.map_values(|op: WriteOperation| op@),
            )),
        },
{
    let chars = to_chars(content);
    let lines = split_sep_chars(&chars, '\n');
    let ghost lsv = line_split(content@);
    let mut out: Vec<WriteOperation> = Vec::new();
    proof {
        assert(out@.map_values(|op: WriteOperation| op@) =~= Seq::<OpView>::empty());
        assert(lsv.skip(0) =~= lsv);
    }
    let mut i: usize = 0;
    while i < lines.len()
        invariant
            i <= lines@.len(),
            lines@.map_values(|l: Vec<char>| l@) == lsv,
            lsv == line_split(content@),
            plan_problem(lsv, 0) == plan_problem(lsv.skip(i as int), i as int),
            wal_ops_of_lines(lsv) == out@.map_values(|op: WriteOperation| op@)
                + wal_ops_of_lines(lsv.skip(i as int)),
            ops_all_safe(out@.map_values(|op: WriteOperation| op@)),
        decreases lines.len() - i,
    {
        let line = &lines[i];
        proof {
            assert(lsv[i as int] == lines@[i as int]@);
            assert(lsv.skip(i as int)[0] == lsv[i as int]);
            assert(lsv.skip(i as int).skip(1) =~= lsv.skip(i as int + 1));
        }
        if !check_blank(line) {
            let ls = from_chars(line);
            match parse_wal_line(ls.as_str()) {
                None => {
                    proof {
                        assert(!wal_line_ok(lsv[i as int]));
                        assert(plan_problem(lsv.skip(i as int), i as int) == Some(
                            EngineError::Malformed { line: i },
                        ));
                    }
                    return Err(EngineError::Malformed { line: i });
                },
                Some(e) => {
                    let ghost eops = sp_wal(lsv[i as int]).unwrap().operations;
                    proof {
                        assert(eops == e.operations@.map_values(|op: WriteOperation| op@));
                        assert(line_ops(lsv[i as int]) == eops);
                    }
                    let mut j: usize = 0;
                    while j < e.operations.len()
                        invariant
                            j <= e.operations@.len(),
                            eops == e.operations@.map_values(|op: WriteOperation| op@),
                            i < lsv.len(),
                            lsv == line_split(content@),
                            plan_problem(lsv, 0) == plan_problem(lsv.skip(i as int), i as int),
                            lsv.skip(i as int)[0] == lsv[i as int],
                            wal_line_ok(lsv[i as int]),
                            line_ops(lsv[i as int]) == eops,
                            forall|t: int| 0 <= t < j ==> is_safe_path(eops[t].path),
                        decreases e.operations.len() - j,
                    {
                        if !path_is_safe(e.operations[j].path.as_str()) {
                            proof {
                                assert(eops[j as int] == e.operations@[j as int]@);
                                assert(!is_safe_path(eops[j as int].path));
                                assert(!ops_all_safe(eops));
                                assert(wal_line_ok(lsv[i as int]));
                                assert(plan_problem(lsv.skip(i as int), i as int) == Some(
                                    EngineError::UnsafePath,
                                ));
                            }
                            return Err(EngineError::UnsafePath);
                        }
                        proof {
                            assert(eops[j as int] == e.operations@[j as int]@);
                        }
                        j = j + 1;
                    }
                    proof {
                        assert(ops_all_safe(eops));
                    }
                    let ghost out_before = out@.map_values(|op: WriteOperation| op@);
                    let mut j2: usize = 0;
                    while j2 < e.operations.len()
                        invariant
                            j2 <= e.operations@.len(),
                            eops == e.operations@.map_values(|op: WriteOperation| op@),
                            ops_all_safe(eops),
                            ops_all_safe(out_before),
                            out@.map_values(|op: WriteOperation| op@) == out_before + eops.take(
                                j2 as int,
                            ),
                        decreases e.operations.len() - j2,
                    {
                        let op_c = clone_op(&e.operations[j2]);
                        let ghost before_push = out@.map_values(|op: WriteOperation| op@);
                        out.push(op_c);
                        proof {
                            assert(out@.map_values(|op: WriteOperation| op@) =~= before_push.push(
                                out@[out@.len() - 1]@,
                            ));
                            assert(out@[out@.len() - 1]@ == eops[j2 as int]);
                            assert(eops.take(j2 as int + 1) =~= eops.take(j2 as int).push(
                                eops[j2 as int],
                            ));
                            assert(out@.map_values(|op: WriteOperation| op@) =~= out_before
                                + eops.take(j2 as int + 1));
                        }
                        j2 = j2 + 1;
                    }
                    proof {
                        assert(eops.take(eops.len() as int) =~= eops);
                        assert forall|t: int|
                            0 <= t < (out_before + eops).len() implies is_safe_path(
                            (out_before + eops)[t].path,
                        ) by {
                            if t < out_before.len() {
                                assert((out_before + eops)[t] == out_before[t]);
                            } else {
                                assert((out_before + eops)[t] == eops[t - out_before.len()]);
                            }
                        }
                        assert((out_before + eops) + wal_ops_of_lines(lsv.skip(i as int + 1))
                            =~= out_before + (eops + wal_ops_of_lines(lsv.skip(i as int + 1))));
                    }
                },
            }
        } else {
            proof {
                assert(line_ops(lsv[i as int]) =~= Seq::<OpView>::empty());
                assert(Seq::<OpView>::empty() + wal_ops_of_lines(lsv.skip(i as int + 1))
                    =~= wal_ops_of_lines(lsv.skip(i as int + 1)));
            }
        }
        i = i + 1;
    }
    proof {
        assert(lsv.skip(lsv.len() as int).len() == 0);
        assert(out@.map_values(|op: WriteOperation| op@) + Seq::<OpView>::empty() =~= out@
            .map_values(|op: WriteOperation| op@));
    }
    Ok(out)
}

// ---------------------------------------------------------------------------
// Reading the audit log
// ---------------------------------------------------------------------------
/// The audit entries recorded by the file's lines, in file order.
pub open spec fn entries_of_lines(lines: Seq<Seq<char>>) -> Seq<OpsLogEntryView>
    decreases lines.len(),
{
    if lines.len() == 0 {
        Seq::empty()
    } else {
        (if is_blank(lines[0]) {
            Seq::empty()
        } else {
            seq![sp_ops_entry(lines[0]).unwrap()]
        }) + entries_of_lines(lines.skip(1))
    }
}

/// Most recent first.
pub open spec fn sorted_desc(s: Seq<OpsLogEntryView>) -> bool {
    forall|i: int, j: int| 0 <= i < j < s.len() ==> s[i].timestamp >= s[j].timestamp
}

/// `res` is the audit file's entries, reordered most recent first and cut
/// to the requested count.
pub open spec fn audit_result_ok(
    content: Seq<char>,
    limit: Option<usize>,
    res: Seq<OpsLogEntryView>,
) -> bool {
    exists|srt: Seq<OpsLogEntryView>|
        srt.to_multiset() == entries_of_lines(line_split(content)).to_multiset() && sorted_desc(
            srt,
        ) && res == (match limit {
            Some(l) => if l < srt.len() {
                srt.take(l as int)
            } else {
                srt
            },
            None => srt,
        })
}

fn sort_entries_desc(v: Vec<OpsLogEntry>) -> (r: Vec<OpsLogEntry>)
    ensures
        r@.map_values(|e: OpsLogEntry| e@).to_multiset() == v@.map_values(
            |e: OpsLogEntry| e@,
        ).to_multiset(),
        sorted_desc(r@.map_values(|e: OpsLogEntry| e@)),
{
    broadcast use vstd::seq_lib::group_to_multiset_ensures;

    let ghost orig = v@.map_values(|e: OpsLogEntry| e@);
    let mut src = v;
    let mut out: Vec<OpsLogEntry> = Vec::new();
    proof {
        assert(out@.map_values(|e: OpsLogEntry| e@) =~= Seq::<OpsLogEntryView>::empty());
        assert(out@.map_values(|e: OpsLogEntry| e@).to_multiset().add(
            src@.map_values(|e: OpsLogEntry| e@).to_multiset(),
        ) =~= orig.to_multiset());
    }
    while src.len() > 0
        invariant
            out@.map_values(|e: OpsLogEntry| e@).to_multiset().add(
                src@.map_values(|e: OpsLogEntry| e@).to_multiset(),
            ) == orig.to_multiset(),
            sorted_desc(out@.map_values(|e: OpsLogEntry| e@)),
            forall|a: int, b: int|
                0 <= a < out@.len() && 0 <= b < src@.len() ==> out@[a]@.timestamp
                    >= src@[b]@.timestamp,
        decreases src.len(),
    {
        let ghost srcv = src@.map_values(|e: OpsLogEntry| e@);
        let ghost outv = out@.map_values(|e: OpsLogEntry| e@);
        let mut m: usize = 0;
        let mut j: usize = 1;
        while j < src.len()
            invariant
                src@.len() > 0,
                (m as int) < src@.len(),
                j <= src@.len(),
                forall|t: int| 0 <= t < j ==> src@[t]@.timestamp <= src@[m as int]@.timestamp,
            decreases src.len() - j,
        {
            if src[j].timestamp > src[m].timestamp {
                m = j;
            }
            j = j + 1;
        }
        proof {
            assert(forall|t: int| 0 <= t < srcv.len() ==> srcv[t].timestamp <= srcv[m as int].timestamp);
        }
        let x = src.remove(m);
        out.push(x);
        proof {
            let srcv2 = src@.map_values(|e: OpsLogEntry| e@);
            let outv2 = out@.map_values(|e: OpsLogEntry| e@);
            assert(srcv2 =~= srcv.remove(m as int));
            assert(outv2 =~= outv.push(x@));
            assert(srcv[m as int] == x@);
            assert(srcv.contains(x@));
            srcv.to_multiset_ensures();
            outv.to_multiset_ensures();
            assert(srcv.to_multiset().count(x@) > 0);
            assert(outv.push(x@).to_multiset() =~= outv.to_multiset().insert(x@));
            assert(outv2.to_multiset() == outv.to_multiset().insert(x@));
            assert(srcv.remove(m as int).to_multiset() =~= srcv.to_multiset().remove(x@));
            assert(srcv2.to_multiset() == srcv.to_multiset().remove(x@));
            assert(outv2.to_multiset().add(srcv2.to_multiset()) =~= outv.to_multiset().add(
                srcv.to_multiset(),
            ));
            assert forall|a: int, b: int| 0 <= a < b < outv2.len() implies outv2[a].timestamp
                >= outv2[b].timestamp by {
                if b < outv.len() {
                    assert(outv2[a] == outv[a] && outv2[b] == outv[b]);
                } else {
                    assert(outv2[b] == x@);
                    assert(outv2[a] == outv[a]);
                    assert(outv[a].timestamp >= srcv[m as int].timestamp);
                }
            }
            assert forall|a: int, b: int|
                0 <= a < out@.len() && 0 <= b < src@.len() implies out@[a]@.timestamp
                >= src@[b]@.timestamp by {
                assert(src@[b]@ == srcv2[b]);
                assert(srcv2[b] == if b < m as int {
                    srcv[b]
                } else {
                    srcv[b + 1]
                });
                if a < outv.len() {
                    assert(out@[a]@ == outv[a]);
                } else {
                    assert(out@[a]@ == x@);
                }
            }
        }
    }
    out
}

/// The audit log, parsed, most recent first, cut to `limit` entries when
/// one is given: success exactly when every non-blank line is a record of
/// the grammar, the first malformed line's index otherwise.
pub fn read_ops_entries(content: &str, limit: Option<usize>) -> (r: Result<
    Vec<OpsLogEntry>,
    EngineError,
>)
    ensures
        match first_bad(line_split(content@), ops_ok_fn()) {
            Some(k) => r == Err::<Vec<OpsLogEntry>, EngineError>(
                EngineError::Malformed { line: k as usize },
            ),
            None => (r matches Ok(es) && audit_result_ok(
                content@,
                limit,
                es@.map_values(|e: OpsLogEntry| e@),
            )),
        },
{
    let chars = to_chars(content);
    let lines = split_sep_chars(&chars, '\n');
    let ghost lsv = line_split(content@);
    let mut parsed: Vec<OpsLogEntry> = Vec::new();
    proof {
        assert(parsed@.map_values(|e: OpsLogEntry| e@) =~= Seq::<OpsLogEntryView>::empty());
        assert(lsv.skip(0) =~= lsv);
        assert(Seq::<OpsLogEntryView>::empty() + entries_of_lines(lsv) =~= entries_of_lines(lsv));
    }
    let mut i: usize = 0;
    while i < lines.len()
        invariant
            i <= lines@.len(),
            lines@.map_values(|l: Vec<char>| l@) == lsv,
            lsv == line_split(content@),
            forall|t: int| 0 <= t < i ==> ops_line_ok(lsv[t]),
            entries_of_lines(lsv) == parsed@.map_values(|e: OpsLogEntry| e@) + entries_of_lines(
                lsv.skip(i as int),
            ),
        decreases lines.len() - i,
    {
        let line = &lines[i];
        proof {
            assert(lsv[i as int] == lines@[i as int]@);
            assert(lsv.skip(i as int)[0] == lsv[i as int]);
            assert(lsv.skip(i as int).skip(1) =~= lsv.skip(i as int + 1));
        }
        if !check_blank(line) {
            let ls = from_chars(line);
            match parse_ops_line(ls.as_str()) {
                None => {
                    proof {
                        assert(!ops_line_ok(lsv[i as int]));
                        assert(!ops_ok_fn()(lsv[i as int]));
                        assert(forall|t: int| 0 <= t < i ==> ops_ok_fn()(lsv[t]));
                        lemma_first_bad_at(lsv, ops_ok_fn(), i as int);
                    }
                    return Err(EngineError::Malformed { line: i });
                },
                Some(e) => {
                    let ghost before = parsed@.map_values(|e2: OpsLogEntry| e2@);
                    let ghost eview = e@;
                    parsed.push(e);
                    proof {
                        assert(parsed@.map_values(|e2: OpsLogEntry| e2@) =~= before.push(eview));
                        assert(entries_of_lines(lsv.skip(i as int)) == seq![
                            sp_ops_entry(lsv[i as int]).unwrap(),
                        ] + entries_of_lines(lsv.skip(i as int + 1)));
                        assert(sp_ops_entry(lsv[i as int]).unwrap() == eview);
                        assert(before.push(eview) + entries_of_lines(lsv.skip(i as int + 1))
                            =~= before + (seq![eview] + entries_of_lines(lsv.skip(i as int + 1))));
                    }
                },
            }
        } else {
            proof {
                assert(entries_of_lines(lsv.skip(i as int)) == Seq::<OpsLogEntryView>::empty()
                    + entries_of_lines(lsv.skip(i as int + 1)));
                assert(Seq::<OpsLogEntryView>::empty() + entries_of_lines(lsv.skip(i as int + 1))
                    =~= entries_of_lines(lsv.skip(i as int + 1)));
            }
        }
        i = i + 1;
    }
    proof {
        assert(lsv.skip(lsv.len() as int).len() == 0);
        assert(parsed@.map_values(|e: OpsLogEntry| e@) + Seq::<OpsLogEntryView>::empty()
            =~= parsed@.map_values(|e: OpsLogEntry| e@));
        assert(parsed@.map_values(|e: OpsLogEntry| e@) == entries_of_lines(lsv));
        assert(forall|t: int| 0 <= t < lsv.len() ==> ops_ok_fn()(lsv[t]));
        lemma_first_bad_at(lsv, ops_ok_fn(), lsv.len() as int);
    }
    let mut es = sort_entries_desc(parsed);
    let ghost srt = es@.map_values(|e: OpsLogEntry| e@);
    match limit {
        Some(l) => {
            if l < es.len() {
                es.truncate(l);
                proof {
                    assert(es@.map_values(|e: OpsLogEntry| e@) =~= srt.take(l as int));
                }
            }
        },
        None => {},
    }
    proof {
        assert(srt.to_multiset() == entries_of_lines(line_split(content@)).to_multiset());
        assert(sorted_desc(srt));
        assert(es@.map_values(|e: OpsLogEntry| e@) == (match limit {
            Some(l) => if l < srt.len() {
                srt.take(l as int)
            } else {
                srt
            },
            None => srt,
        }));
        assert(audit_result_ok(content@, limit, es@.map_values(|e: OpsLogEntry| e@)));
    }
    Ok(es)
}

// ---------------------------------------------------------------------------
// Planning one apply run
// ---------------------------------------------------------------------------
/// One step of an `apply` run.  The caller performs the steps strictly in
/// order and stops at the first failure: record the intent durably, write
/// each target atomically, clear the write-ahead log, append the audit
/// record.
#[derive(Debug)]
pub enum PlanStep {
    /// Append this text to the write-ahead-log file, creating it and the
    /// control directory if absent, durably before any target is touched.
    AppendWal { line: String },
    /// Write this full content to this root-relative path via a sibling
    /// temporary file and an atomic rename.
    WriteTarget { path: String, content: String },
    /// Delete the write-ahead-log file if present.
    ClearWal,
    /// Append this text to the ops-log file, creating it if absent.
    AppendOps { line: String },
}

/// An owned copy of a batch of operations.
pub fn clone_ops(ops: &Vec<WriteOperation>) -> (r: Vec<WriteOperation>)
    ensures
        r@.map_values(|op: WriteOperation| op@) == ops@.map_values(|op: WriteOperation| op@),
{
    let mut r: Vec<WriteOperation> = Vec::new();
    proof {
        assert(r@.map_values(|op: WriteOperation| op@) =~= ops@.map_values(
            |op: WriteOperation| op@,
        ).take(0));
    }
    let mut i: usize = 0;
    while i < ops.len()
        invariant
            i <= ops@.len(),
            r@.map_values(|op: WriteOperation| op@) == ops@.map_values(
                |op: WriteOperation| op@,
            ).take(i as int),
        decreases ops.len() - i,
    {
        let ghost before = r@.map_values(|op: WriteOperation| op@);
        r.push(clone_op(&ops[i]));
        proof {
            let full = ops@.map_values(|op: WriteOperation| op@);
            assert(r@.map_values(|op: WriteOperation| op@) =~= before.push(r@[r@.len() - 1]@));
            assert(r@[r@.len() - 1]@ == full[i as int]);
            assert(before.push(full[i as int]) =~= full.take(i as int + 1));
        }
        i = i + 1;
    }
    proof {
        let full = ops@.map_values(|op: WriteOperation| op@);
        assert(full.take(full.len() as int) =~= full);
    }
    r
}

/// The write-ahead-log projection of a transaction.
pub fn make_wal_entry(tx: &Transaction) -> (r: WalEntry)
    ensures
        r@ == (WalEntryView { transaction_id: tx.id@, operations: tx@.operations }),
{
    WalEntry { transaction_id: tx.id.clone(), operations: clone_ops(&tx.operations) }
}

/// Relies on uuid::Uuid::new_v4, rendered by Uuid::to_string: a freshly
/// drawn random identifier in its standard text form.  Nothing is promised
/// of a random value.
#[verifier::external_body]
fn fresh_entry_id() -> String {
    uuid::Uuid::new_v4().to_string()
}

/// Relies on std::time::SystemTime::now and its distance from the Unix
/// epoch, in milliseconds.  Nothing is promised of the clock's reading.
#[verifier::external_body]
pub fn current_timestamp_ms() -> u64 {
    std::time::SystemTime::now().duration_since(std::time::UNIX_EPOCH).unwrap_or_default().as_millis() as u64
}

/// The audit record of a completed transaction, under a fresh identifier
/// and the clock's current reading.
pub fn make_ops_entry(tx: &Transaction) -> (r: OpsLogEntry)
    ensures
        r@.transaction_id == tx.id@,
        r@.operations == tx@.operations,
{
    OpsLogEntry {
        id: fresh_entry_id(),
        timestamp: current_timestamp_ms(),
        transaction_id: tx.id.clone(),
        operations: clone_ops(&tx.operations),
    }
}

/// The full ordered plan of one `apply` run, or the rejection of a path
/// that could escape the root.  The write-ahead-log line stands first,
/// then every target write in batch order, then the clearing of the log,
/// then the audit record: exactly the ordering the protocol demands.
pub fn plan_apply(tx: &Transaction) -> (r: Result<Vec<PlanStep>, EngineError>)
    ensures
        r is Ok <==> ops_all_safe(tx@.operations),
        r is Err ==> r == Err::<Vec<PlanStep>, EngineError>(EngineError::UnsafePath),
        r matches Ok(steps) ==> steps@.len() == tx@.operations.len() + 3,
        r matches Ok(steps) ==> (steps@[0] matches PlanStep::AppendWal { line } && line@
            == wal_line(WalEntryView { transaction_id: tx.id@, operations: tx@.operations })
            + seq!['\n']),
        r matches Ok(steps) ==> (forall|k: int|
            0 <= k < tx@.operations.len() ==> (#[trigger] steps@[k + 1] matches
            PlanStep::WriteTarget { path, content } && path@ == tx@.operations[k].path && content@
                == tx@.operations[k].content)),
        r matches Ok(steps) ==> steps@[steps@.len() - 2] is ClearWal,
        r matches Ok(steps) ==> (steps@[steps@.len() - 1] matches PlanStep::AppendOps { line }
            && exists|eid: Seq<char>, ts: u64|
            line@ == ops_line(
                OpsLogEntryView {
                    id: eid,
                    timestamp: ts,
                    transaction_id: tx.id@,
                    operations: tx@.operations,
                },
            ) + seq!['\n']),
{
    let mut k: usize = 0;
    while k < tx.operations.len()
        invariant
            k <= tx@.operations.len(),
            tx@.operations == tx.operations@.map_values(|op: WriteOperation| op@),
            forall|t: int| 0 <= t < k ==> is_safe_path(tx@.operations[t].path),
        decreases tx.operations.len() - k,
    {
        if !path_is_safe(tx.operations[k].path.as_str()) {
            proof {
                assert(tx@.operations[k as int] == tx.operations@[k as int]@);
                assert(!is_safe_path(tx@.operations[k as int].path));
                assert(!ops_all_safe(tx@.operations));
            }
            return Err(EngineError::UnsafePath);
        }
        proof {
            assert(tx@.operations[k as int] == tx.operations@[k as int]@);
        }
        k = k + 1;
    }
    proof {
        assert(ops_all_safe(tx@.operations));
    }
    let entry = make_wal_entry(tx);
    let mut wline = encode_wal_line(&entry);
    crate::text::push_char(&mut wline, '\n');
    proof {
        assert(wline@ =~= wal_line(WalEntryView { transaction_id: tx.id@, operations: tx@.operations }) + seq!['\n']);
    }
    let mut steps: Vec<PlanStep> = Vec::new();
    steps.push(PlanStep::AppendWal { line: wline });
    let mut k2: usize = 0;
    while k2 < tx.operations.len()
        invariant
            k2 <= tx@.operations.len(),
            tx@.operations == tx.operations@.map_values(|op: WriteOperation| op@),
            steps@.len() == k2 + 1,
            (steps@[0] matches PlanStep::AppendWal { line } && line@ == wal_line(
                WalEntryView { transaction_id: tx.id@, operations: tx@.operations },
            ) + seq!['\n']),
            forall|t: int|
                0 <= t < k2 ==> (#[trigger] steps@[t + 1] matches PlanStep::WriteTarget {
                    path,
                    content,
                } && path@ == tx@.operations[t].path && content@ == tx@.operations[t].content),
        decreases tx.operations.len() - k2,
    {
        steps.push(
            PlanStep::WriteTarget {
                path: tx.operations[k2].path.clone(),
                content: tx.operations[k2].content.clone(),
            },
        );
        proof {
            assert(tx@.operations[k2 as int] == tx.operations@[k2 as int]@);
        }
        k2 = k2 + 1;
    }
    steps.push(PlanStep::ClearWal);
    let oentry = make_ops_entry(tx);
    let ghost oid = oentry@.id;
    let ghost ots = oentry@.timestamp;
    let mut oline = encode_ops_line(&oentry);
    crate::text::push_char(&mut oline, '\n');
    proof {
        assert(oentry@ == (OpsLogEntryView {
            id: oid,
            timestamp: ots,
            transaction_id: tx.id@,
            operations: tx@.operations,
        }));
        assert(oline@ =~= ops_line(
            OpsLogEntryView {
                id: oid,
                timestamp: ots,
                transaction_id: tx.id@,
                operations: tx@.operations,
            },
        ) + seq!['\n']);
    }
    steps.push(PlanStep::AppendOps { line: oline });
    Ok(steps)
}

// ---------------------------------------------------------------------------
// Where the control files live
// ---------------------------------------------------------------------------
/// The hidden control directory under the root.
pub fn graph_dir(root: &str) -> (r: String)
    ensures
        r@ == root@ + seq!['/', '.', 'g', 'r', 'a', 'p', 'h'],
{
    let mut s = root.to_owned();
    s.append("/.graph");
    proof {
        reveal_strlit("/.graph");
        assert(s@ =~= root@ + seq!['/', '.', 'g', 'r', 'a', 'p', 'h']);
    }
    s
}

/// The write-ahead-log file under the root.
pub fn wal_path(root: &str) -> (r: String)
    ensures
        r@ == root@ + seq!['/', '.', 'g', 'r', 'a', 'p', 'h', '/', 'w', 'a', 'l', '.', 'l', 'o', 'g'],
{
    let mut s = graph_dir(root);
    s.append("/wal.log");
    proof {
        reveal_strlit("/wal.log");
        assert(s@ =~= root@ + seq![
            '/', '.', 'g', 'r', 'a', 'p', 'h', '/', 'w', 'a', 'l', '.', 'l', 'o', 'g',
        ]);
    }
    s
}

/// The ops-log file under the root.
pub fn ops_log_path(root: &str) -> (r: String)
    ensures
        r@ == root@ + seq![
            '/', '.', 'g', 'r', 'a', 'p', 'h', '/', 'o', 'p', 's', '_', 'l', 'o', 'g', '.', 'j',
            's', 'o', 'n', 'l',
        ],
{
    let mut s = graph_dir(root);
    s.append("/ops_log.jsonl");
    proof {
        reveal_strlit("/ops_log.jsonl");
        assert(s@ =~= root@ + seq![
            '/', '.', 'g', 'r', 'a', 'p', 'h', '/', 'o', 'p', 's', '_', 'l', 'o', 'g', '.', 'j',
            's', 'o', 'n', 'l',
        ]);
    }
    s
}

// ---------------------------------------------------------------------------
// The engine's guarantees, end to end
// ---------------------------------------------------------------------------
/// The log file the engine writes for one pending transaction — the
/// record line and its newline — verifies cleanly, replans exactly the
/// transaction's operations, and, when every path is safe, raises no
/// replay problem.
pub proof fn lemma_planned_wal_file_recovers(e: WalEntryView)
    ensures
        wal_verify_result(wal_line(e) + seq!['\n']) is None,
        wal_ops_of_lines(line_split(wal_line(e) + seq!['\n'])) == e.operations,
        ops_all_safe(e.operations) ==> plan_problem(line_split(wal_line(e) + seq!['\n']), 0)
            is None,
{
    let l = wal_line(e);
    let content = l + seq!['\n'];
    crate::codec::lemma_wal_line_no_newline(e);
    crate::codec::lemma_wal_roundtrip(e);
    assert forall|i: int| 0 <= i < l.len() implies content[i] != '\n' by {
        assert(content[i] == l[i]);
    }
    assert(content[l.len() as int] == '\n');
    lemma_first_sep_is(content, '\n', l.len() as int);
    assert(content.take(l.len() as int) =~= l);
    assert(content.skip(l.len() as int + 1) =~= Seq::<char>::empty());
    assert(first_sep(Seq::<char>::empty(), '\n') == 0);
    assert(line_split(Seq::<char>::empty()) =~= seq![Seq::<char>::empty()]);
    let lines = line_split(content);
    assert(lines =~= seq![l] + seq![Seq::<char>::empty()]);
    assert(lines.len() == 2);
    assert(lines[0] == l);
    assert(lines[1] =~= Seq::<char>::empty());
    assert(is_blank(lines[1]));
    assert(sp_wal(l) == Some(e));
    assert(wal_line_ok(lines[0]));
    assert(wal_line_ok(lines[1]));
    assert(forall|t: int| 0 <= t < lines.len() ==> wal_ok_fn()(lines[t]));
    lemma_first_bad_at(lines, wal_ok_fn(), 2);
    // the record line is not blank: it opens with a brace
    assert(l[0] == '{');
    assert(!is_blank(lines[0]));
    assert(line_ops(lines[0]) == e.operations);
    assert(lines.skip(1)[0] == lines[1]);
    assert(line_ops(lines[1]) =~= Seq::<OpView>::empty());
    assert(lines.skip(1).skip(1) =~= Seq::<Seq<char>>::empty());
    assert(wal_ops_of_lines(Seq::<Seq<char>>::empty()) =~= Seq::<OpView>::empty());
    assert(wal_ops_of_lines(lines.skip(1)) =~= Seq::<OpView>::empty());
    assert(wal_ops_of_lines(lines) =~= e.operations);
    if ops_all_safe(e.operations) {
        assert(ops_all_safe(line_ops(lines[0])));
        assert(ops_all_safe(line_ops(lines[1])));
        assert(plan_problem(lines.skip(1).skip(1), 2) is None);
        assert(plan_problem(lines.skip(1), 1) is None);
        assert(plan_problem(lines, 0) is None);
    }
}

/// Crash recovery, end to end.  The engine records its whole intent as
/// one log line before touching any file.  If the run stops after any
/// prefix of the batch has been applied, replaying what the log file
/// holds completes the batch: the directory is exactly as if the run had
/// never been interrupted.
pub proof fn lemma_crash_recovery(m: DirModel, e: WalEntryView, k: int)
    requires
        0 <= k <= e.operations.len(),
    ensures
        wal_ops_of_lines(line_split(wal_line(e) + seq!['\n'])) == e.operations,
        write_all(
            write_all(m, e.operations.take(k)),
            wal_ops_of_lines(line_split(wal_line(e) + seq!['\n'])),
        ) == write_all(m, e.operations),
{
    lemma_planned_wal_file_recovers(e);
    lemma_replay_after_prefix(m, e.operations, k);
}

/// A cleared log plans nothing: after a successful run or recovery the
/// write-ahead log is empty or absent, and a further recovery performs no
/// write at all.
pub proof fn lemma_empty_wal_plans_nothing()
    ensures
        wal_verify_result(Seq::<char>::empty()) is None,
        plan_problem(line_split(Seq::<char>::empty()), 0) is None,
        wal_ops_of_lines(line_split(Seq::<char>::empty())) == Seq::<OpView>::empty(),
{
    assert(first_sep(Seq::<char>::empty(), '\n') == 0);
    let lines = line_split(Seq::<char>::empty());
    assert(lines =~= seq![Seq::<char>::empty()]);
    assert(is_blank(lines[0]));
    assert(wal_line_ok(lines[0]));
    assert(forall|t: int| 0 <= t < lines.len() ==> wal_ok_fn()(lines[t]));
    lemma_first_bad_at(lines, wal_ok_fn(), 1);
    assert(lines.skip(1) =~= Seq::<Seq<char>>::empty());
    assert(line_ops(lines[0]) =~= Seq::<OpView>::empty());
    assert(plan_problem(lines.skip(1), 1) is None);
    assert(wal_ops_of_lines(lines.skip(1)) =~= Seq::<OpView>::empty());
    assert(wal_ops_of_lines(lines) =~= Seq::<OpView>::empty());
}

// ---------------------------------------------------------------------------
// The audit trail grows by exactly one entry per completed run
// ---------------------------------------------------------------------------
proof fn lemma_split_sep_len(s: Seq<char>, sep: char)
    ensures
        split_sep(s, sep).len() >= 1,
{
}

/// Splitting text that ends with the separator, followed by more text,
/// splits each part on its own: the empty last field of the first part
/// merges into the first field of the second.
proof fn lemma_split_sep_append(a: Seq<char>, b: Seq<char>, sep: char)
    requires
        a.len() == 0 || a.last() == sep,
    ensures
        split_sep(a + b, sep) == split_sep(a, sep).drop_last() + split_sep(b, sep),
    decreases a.len(),
{
    if a.len() == 0 {
        assert(a + b =~= b);
        assert(split_sep(a, sep) =~= seq![a]);
        assert(split_sep(a, sep).drop_last() + split_sep(b, sep) =~= split_sep(b, sep));
    } else {
        lemma_first_sep(a, sep);
        let k = first_sep(a, sep);
        assert(a.last() == sep);
        assert(k < a.len());
        assert forall|i: int| 0 <= i < k implies (a + b)[i] != sep by {
            assert((a + b)[i] == a[i]);
        }
        assert((a + b)[k] == a[k]);
        lemma_first_sep_is(a + b, sep, k);
        assert((a + b).skip(k + 1) =~= a.skip(k + 1) + b);
        assert((a + b).take(k) =~= a.take(k));
        if a.skip(k + 1).len() > 0 {
            assert(a.skip(k + 1).last() == a.last());
        }
        lemma_split_sep_append(a.skip(k + 1), b, sep);
        lemma_split_sep_len(a.skip(k + 1), sep);
        assert(split_sep(a, sep).drop_last() =~= seq![a.take(k)] + split_sep(
            a.skip(k + 1),
            sep,
        ).drop_last());
        assert(seq![a.take(k)] + (split_sep(a.skip(k + 1), sep).drop_last() + split_sep(b, sep))
            =~= (seq![a.take(k)] + split_sep(a.skip(k + 1), sep).drop_last()) + split_sep(b, sep));
    }
}

proof fn lemma_entries_concat(x: Seq<Seq<char>>, y: Seq<Seq<char>>)
    ensures
        entries_of_lines(x + y) == entries_of_lines(x) + entries_of_lines(y),
    decreases x.len(),
{
    if x.len() == 0 {
        assert(x + y =~= y);
        assert(entries_of_lines(x) + entries_of_lines(y) =~= entries_of_lines(y));
    } else {
        assert((x + y).skip(1) =~= x.skip(1) + y);
        assert((x + y)[0] == x[0]);
        lemma_entries_concat(x.skip(1), y);
        let head = if is_blank(x[0]) {
            Seq::<OpsLogEntryView>::empty()
        } else {
            seq![sp_ops_entry(x[0]).unwrap()]
        };
        assert(head + (entries_of_lines(x.skip(1)) + entries_of_lines(y)) =~= (head
            + entries_of_lines(x.skip(1))) + entries_of_lines(y));
    }
}

proof fn lemma_first_bad_none(lines: Seq<Seq<char>>, ok: spec_fn(Seq<char>) -> bool)
    ensures
        first_bad(lines, ok) is None <==> (forall|t: int| 0 <= t < lines.len() ==> ok(lines[t])),
    decreases lines.len(),
{
    if lines.len() > 0 && ok(lines[0]) {
        lemma_first_bad_none(lines.skip(1), ok);
        assert forall|t: int|
            (forall|u: int| 0 <= u < lines.skip(1).len() ==> ok(lines.skip(1)[u])) && 0 <= t
                < lines.len() implies ok(lines[t]) by {
            if t > 0 {
                assert(lines.skip(1)[t - 1] == lines[t]);
            }
        }
        assert forall|u: int|
            (forall|t: int| 0 <= t < lines.len() ==> ok(lines[t])) && 0 <= u < lines.skip(
                1,
            ).len() implies ok(lines.skip(1)[u]) by {
            assert(lines.skip(1)[u] == lines[u + 1]);
        }
    }
}

/// The audit trail after a completed run.  Appending the audit record the
/// plan carries to a well-formed ops-log file — one that is empty or ends
/// with a newline — adds exactly that one entry, after all the old ones,
/// and leaves the file well-formed.
pub proof fn lemma_audit_append(old_content: Seq<char>, e: OpsLogEntryView)
    requires
        old_content.len() == 0 || old_content.last() == '\n',
    ensures
        entries_of_lines(line_split(old_content + ops_line(e) + seq!['\n'])) == entries_of_lines(
            line_split(old_content),
        ) + seq![e],
        first_bad(line_split(old_content), ops_ok_fn()) is None ==> first_bad(
            line_split(old_content + ops_line(e) + seq!['\n']),
            ops_ok_fn(),
        ) is None,
{
    let l = ops_line(e);
    let tail = l + seq!['\n'];
    crate::codec::lemma_ops_line_no_newline(e);
    crate::codec::lemma_ops_roundtrip(e);
    assert(old_content + l + seq!['\n'] =~= old_content + tail);
    lemma_split_sep_append(old_content, tail, '\n');
    // the appended text splits into the record line and one empty line
    assert forall|i: int| 0 <= i < l.len() implies tail[i] != '\n' by {
        assert(tail[i] == l[i]);
    }
    assert(tail[l.len() as int] == '\n');
    lemma_first_sep_is(tail, '\n', l.len() as int);
    assert(tail.take(l.len() as int) =~= l);
    assert(tail.skip(l.len() as int + 1) =~= Seq::<char>::empty());
    assert(first_sep(Seq::<char>::empty(), '\n') == 0);
    assert(line_split(Seq::<char>::empty()) =~= seq![Seq::<char>::empty()]);
    let tail_lines = line_split(tail);
    assert(tail_lines =~= seq![l] + seq![Seq::<char>::empty()]);
    assert(tail_lines.len() == 2);
    assert(tail_lines[0] == l);
    assert(tail_lines[1] =~= Seq::<char>::empty());
    assert(is_blank(tail_lines[1]));
    assert(l[0] == '{');
    assert(!is_blank(tail_lines[0]));
    assert(sp_ops_entry(l) == Some(e));
    // its entries are exactly the one record
    assert(tail_lines.skip(1)[0] == tail_lines[1]);
    assert(tail_lines.skip(1).skip(1) =~= Seq::<Seq<char>>::empty());
    assert(entries_of_lines(Seq::<Seq<char>>::empty()) =~= Seq::<OpsLogEntryView>::empty());
    assert(entries_of_lines(tail_lines.skip(1)) =~= Seq::<OpsLogEntryView>::empty());
    assert(entries_of_lines(tail_lines) =~= seq![e]);
    // the old file's entries all sit before its final empty field
    let old_lines = line_split(old_content);
    lemma_split_sep_len(old_content, '\n');
    assert(old_lines.len() >= 1);
    assert(old_lines =~= old_lines.drop_last() + seq![old_lines.last()]);
    lemma_entries_concat(old_lines.drop_last(), seq![old_lines.last()]);
    assert(is_blank(old_lines.last())) by {
        if old_content.len() == 0 {
            assert(first_sep(old_content, '\n') == 0);
            assert(old_lines =~= seq![old_content]);
            assert(old_lines.last() =~= Seq::<char>::empty());
        } else {
            lemma_last_line_empty(old_content);
        }
    }
    assert(seq![old_lines.last()][0] == old_lines.last());
    assert(seq![old_lines.last()].skip(1) =~= Seq::<Seq<char>>::empty());
    assert(entries_of_lines(seq![old_lines.last()]) =~= Seq::<OpsLogEntryView>::empty());
    assert(entries_of_lines(old_lines) =~= entries_of_lines(old_lines.drop_last()));
    // put the pieces together
    let new_lines = line_split(old_content + tail);
    assert(new_lines == old_lines.drop_last() + tail_lines);
    lemma_entries_concat(old_lines.drop_last(), tail_lines);
    assert(entries_of_lines(new_lines) =~= entries_of_lines(old_lines) + seq![e]);
    // well-formedness carries over
    if first_bad(old_lines, ops_ok_fn()) is None {
        lemma_first_bad_none(old_lines, ops_ok_fn());
        lemma_first_bad_none(new_lines, ops_ok_fn());
        assert forall|t: int| 0 <= t < new_lines.len() implies ops_ok_fn()(new_lines[t]) by {
            if t < old_lines.drop_last().len() {
                assert(new_lines[t] == old_lines[t]);
            } else {
                assert(new_lines[t] == tail_lines[t - old_lines.drop_last().len()]);
                assert(ops_line_ok(tail_lines[0]));
                assert(ops_line_ok(tail_lines[1]));
            }
        }
    }
}

/// Text ending with a newline splits into fields whose last is empty.
proof fn lemma_last_line_empty(s: Seq<char>)
    requires
        s.len() > 0,
        s.last() == '\n',
    ensures
        split_sep(s, '\n').last() =~= Seq::<char>::empty(),
    decreases s.len(),
{
    lemma_first_sep(s, '\n');
    let k = first_sep(s, '\n');
    assert(k < s.len());
    let rest = s.skip(k + 1);
    lemma_split_sep_len(rest, '\n');
    if rest.len() == 0 {
        assert(first_sep(rest, '\n') == 0);
        assert(split_sep(rest, '\n') =~= seq![rest]);
        assert(split_sep(s, '\n').last() == rest);
    } else {
        assert(rest.last() == s.last());
        lemma_last_line_empty(rest);
        assert(split_sep(s, '\n').last() == split_sep(rest, '\n').last());
    }
}

} // verus!
