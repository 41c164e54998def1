//! The grammar of the two on-disk record shapes.
//!
//! Both logs hold one record per line.  A record is a JSON object in the
//! canonical form this engine itself writes: fixed key order, no extra
//! whitespace, string values escaped so that no record ever contains a raw
//! newline, quote or backslash.  The grammar is given by the `sp_*`
//! specification parsers below; `wal_line` and `ops_line` are the canonical
//! encodings, and the round-trip lemmas prove that whatever the engine
//! writes it can read back unchanged.

use vstd::prelude::*;
use crate::text::{from_chars, push_all, to_chars};
use crate::types::{OpView, OpsLogEntry, OpsLogEntryView, WalEntry, WalEntryView, WriteOperation};

verus! {

// ---------------------------------------------------------------------------
// String escaping
// ---------------------------------------------------------------------------
/// The characters that may not stand raw inside a quoted string.
pub open spec fn needs_escape(c: char) -> bool {
    c == '"' || c == '\\' || c == '\n' || c == '\r' || c == '\t'
}

/// The character standing after the backslash for an escaped character.
pub open spec fn escape_code(c: char) -> char {
    if c == '"' {
        '"'
    } else if c == '\\' {
        '\\'
    } else if c == '\n' {
        'n'
    } else if c == '\r' {
        'r'
    } else {
        't'
    }
}

/// The character an escape code stands for, if it is a known code.
pub open spec fn unescape_code(c: char) -> Option<char> {
    if c == '"' {
        Some('"')
    } else if c == '\\' {
        Some('\\')
    } else if c == 'n' {
        Some('\n')
    } else if c == 'r' {
        Some('\r')
    } else if c == 't' {
        Some('\t')
    } else {
        None
    }
}

/// How one character appears inside a quoted string.
pub open spec fn esc_char(c: char) -> Seq<char> {
    if needs_escape(c) {
        seq!['\\', escape_code(c)]
    } else {
        seq![c]
    }
}

/// How a whole string value appears inside its quotes.
pub open spec fn esc_str(s: Seq<char>) -> Seq<char>
    decreases s.len(),
{
    if s.len() == 0 {
        Seq::empty()
    } else {
        esc_char(s[0]) + esc_str(s.skip(1))
    }
}

pub proof fn lemma_esc_str_concat(a: Seq<char>, b: Seq<char>)
    ensures
        esc_str(a + b) == esc_str(a) + esc_str(b),
    decreases a.len(),
{
    if a.len() == 0 {
        assert(a + b =~= b);
        assert(esc_str(a) + esc_str(b) =~= esc_str(b));
    } else {
        assert((a + b).skip(1) =~= a.skip(1) + b);
        assert((a + b)[0] == a[0]);
        lemma_esc_str_concat(a.skip(1), b);
        assert(esc_char(a[0]) + (esc_str(a.skip(1)) + esc_str(b)) =~= (esc_char(a[0]) + esc_str(
            a.skip(1),
        )) + esc_str(b));
    }
}

/// An escaped string never contains a raw newline, so a record always
/// stays on its one line.
pub proof fn lemma_esc_str_no_newline(s: Seq<char>)
    ensures
        forall|i: int| 0 <= i < esc_str(s).len() ==> esc_str(s)[i] != '\n',
    decreases s.len(),
{
    if s.len() > 0 {
        lemma_esc_str_no_newline(s.skip(1));
        assert forall|i: int| 0 <= i < esc_str(s).len() implies esc_str(s)[i] != '\n' by {
            if i < esc_char(s[0]).len() {
                assert(esc_str(s)[i] == esc_char(s[0])[i]);
            } else {
                assert(esc_str(s)[i] == esc_str(s.skip(1))[i - esc_char(s[0]).len()]);
            }
        }
    }
}

// ---------------------------------------------------------------------------
// Decimal representation of the timestamp
// ---------------------------------------------------------------------------
pub open spec fn digit_char(d: nat) -> char {
    if d == 0 {
        '0'
    } else if d == 1 {
        '1'
    } else if d == 2 {
        '2'
    } else if d == 3 {
        '3'
    } else if d == 4 {
        '4'
    } else if d == 5 {
        '5'
    } else if d == 6 {
        '6'
    } else if d == 7 {
        '7'
    } else if d == 8 {
        '8'
    } else {
        '9'
    }
}

pub open spec fn digit_val(c: char) -> Option<nat> {
    if c == '0' {
        Some(0nat)
    } else if c == '1' {
        Some(1nat)
    } else if c == '2' {
        Some(2nat)
    } else if c == '3' {
        Some(3nat)
    } else if c == '4' {
        Some(4nat)
    } else if c == '5' {
        Some(5nat)
    } else if c == '6' {
        Some(6nat)
    } else if c == '7' {
        Some(7nat)
    } else if c == '8' {
        Some(8nat)
    } else if c == '9' {
        Some(9nat)
    } else {
        None
    }
}

/// The usual decimal notation, most significant digit first, no sign, no
/// leading zero.
pub open spec fn dec_rep(n: nat) -> Seq<char>
    decreases n,
{
    if n < 10 {
        seq![digit_char(n)]
    } else {
        dec_rep(n / 10) + seq![digit_char(n % 10)]
    }
}

pub proof fn lemma_digit_roundtrip(d: nat)
    requires
        d < 10,
    ensures
        digit_val(digit_char(d)) == Some(d),
{
}

pub proof fn lemma_dec_rep_first(n: nat)
    ensures
        dec_rep(n).len() >= 1,
        digit_val(dec_rep(n)[0]) is Some,
        n >= 1 ==> dec_rep(n)[0] != '0',
    decreases n,
{
    if n < 10 {
        lemma_digit_roundtrip(n);
    } else {
        lemma_dec_rep_first(n / 10);
        assert(dec_rep(n)[0] == dec_rep(n / 10)[0]);
    }
}

pub proof fn lemma_dec_rep_no_newline(n: nat)
    ensures
        forall|i: int| 0 <= i < dec_rep(n).len() ==> dec_rep(n)[i] != '\n',
    decreases n,
{
    if n >= 10 {
        lemma_dec_rep_no_newline(n / 10);
        assert forall|i: int| 0 <= i < dec_rep(n).len() implies dec_rep(n)[i] != '\n' by {
            if i < dec_rep(n / 10).len() {
                assert(dec_rep(n)[i] == dec_rep(n / 10)[i]);
            } else {
                assert(dec_rep(n)[i] == digit_char(n % 10));
            }
        }
    }
}

// ---------------------------------------------------------------------------
// The literal keys of the record objects
// ---------------------------------------------------------------------------
pub open spec fn lw_head() -> Seq<char> {
    seq!['{', '"', 't', 'r', 'a', 'n', 's', 'a', 'c', 't', 'i', 'o', 'n', '_', 'i', 'd', '"', ':', '"']
}

pub open spec fn l_ops() -> Seq<char> {
    seq![',', '"', 'o', 'p', 'e', 'r', 'a', 't', 'i', 'o', 'n', 's', '"', ':', '[']
}

pub open spec fn lo_head() -> Seq<char> {
    seq!['{', '"', 'p', 'a', 't', 'h', '"', ':', '"']
}

pub open spec fn lo_mid() -> Seq<char> {
    seq![',', '"', 'c', 'o', 'n', 't', 'e', 'n', 't', '"', ':', '"']
}

pub open spec fn lp_head() -> Seq<char> {
    seq!['{', '"', 'i', 'd', '"', ':', '"']
}

pub open spec fn lp_ts() -> Seq<char> {
    seq![',', '"', 't', 'i', 'm', 'e', 's', 't', 'a', 'm', 'p', '"', ':']
}

pub open spec fn lp_tx() -> Seq<char> {
    seq![',', '"', 't', 'r', 'a', 'n', 's', 'a', 'c', 't', 'i', 'o', 'n', '_', 'i', 'd', '"', ':', '"']
}

// ---------------------------------------------------------------------------
// Canonical encodings
// ---------------------------------------------------------------------------
/// One operation as a record member.
pub open spec fn op_json(op: OpView) -> Seq<char> {
    lo_head() + esc_str(op.path) + seq!['"'] + lo_mid() + esc_str(op.content) + seq!['"', '}']
}

/// The members of the operations array, separated by commas.
pub open spec fn ops_items_enc(ops: Seq<OpView>) -> Seq<char>
    decreases ops.len(),
{
    if ops.len() == 0 {
        Seq::empty()
    } else if ops.len() == 1 {
        op_json(ops[0])
    } else {
        op_json(ops[0]) + seq![','] + ops_items_enc(ops.skip(1))
    }
}

/// The operations array after its opening bracket, closing bracket included.
pub open spec fn ops_list_enc(ops: Seq<OpView>) -> Seq<char> {
    ops_items_enc(ops) + seq![']']
}

/// One line of the write-ahead log.
pub open spec fn wal_line(e: WalEntryView) -> Seq<char> {
    lw_head() + esc_str(e.transaction_id) + seq!['"'] + l_ops() + ops_list_enc(e.operations)
        + seq!['}']
}

/// One line of the ops log.
pub open spec fn ops_line(e: OpsLogEntryView) -> Seq<char> {
    lp_head() + esc_str(e.id) + seq!['"'] + lp_ts() + dec_rep(e.timestamp as nat) + lp_tx()
        + esc_str(e.transaction_id) + seq!['"'] + l_ops() + ops_list_enc(e.operations) + seq!['}']
}

// ---------------------------------------------------------------------------
// The grammar: specification parsers
// ---------------------------------------------------------------------------
/// Consume an expected literal.
pub open spec fn sp_lit(s: Seq<char>, lit: Seq<char>) -> Option<Seq<char>> {
    if lit.is_prefix_of(s) {
        Some(s.skip(lit.len() as int))
    } else {
        None
    }
}

/// Consume a string value up to and including its closing quote, undoing
/// the escapes.
pub open spec fn sp_string(s: Seq<char>) -> Option<(Seq<char>, Seq<char>)>
    decreases s.len(),
{
    if s.len() == 0 {
        None
    } else if s[0] == '"' {
        Some((Seq::empty(), s.skip(1)))
    } else if s[0] == '\\' {
        if s.len() < 2 {
            None
        } else {
            match unescape_code(s[1]) {
                Some(c) => match sp_string(s.skip(2)) {
                    Some(dr) => Some((seq![c] + dr.0, dr.1)),
                    None => None,
                },
                None => None,
            }
        }
    } else {
        match sp_string(s.skip(1)) {
            Some(dr) => Some((seq![s[0]] + dr.0, dr.1)),
            None => None,
        }
    }
}

/// Consume a run of digits, folding them into `acc`.
pub open spec fn sp_digits(s: Seq<char>, acc: nat) -> (nat, Seq<char>)
    decreases s.len(),
{
    if s.len() > 0 && digit_val(s[0]) is Some {
        sp_digits(s.skip(1), acc * 10 + digit_val(s[0]).unwrap())
    } else {
        (acc, s)
    }
}

/// Consume an unsigned decimal number that fits in a `u64`, with no
/// leading zero.
pub open spec fn sp_number(s: Seq<char>) -> Option<(u64, Seq<char>)> {
    if s.len() == 0 || digit_val(s[0]) is None {
        None
    } else if s[0] == '0' && s.len() > 1 && digit_val(s[1]) is Some {
        None
    } else {
        let vr = sp_digits(s, 0);
        if vr.0 > u64::MAX {
            None
        } else {
            Some((vr.0 as u64, vr.1))
        }
    }
}

/// Consume one operation object.
pub open spec fn sp_op(s: Seq<char>) -> Option<(OpView, Seq<char>)> {
    match sp_lit(s, lo_head()) {
        None => None,
        Some(s1) => match sp_string(s1) {
            None => None,
            Some(ps) => match sp_lit(ps.1, lo_mid()) {
                None => None,
                Some(s3) => match sp_string(s3) {
                    None => None,
                    Some(cs) => match sp_lit(cs.1, seq!['}']) {
                        None => None,
                        Some(s5) => Some((OpView { path: ps.0, content: cs.0 }, s5)),
                    },
                },
            },
        },
    }
}

pub proof fn lemma_sp_string_consumes(s: Seq<char>)
    ensures
        sp_string(s) matches Some(dr) ==> dr.1.len() < s.len(),
    decreases s.len(),
{
    if s.len() == 0 {
    } else if s[0] == '"' {
    } else if s[0] == '\\' {
        if s.len() >= 2 {
            lemma_sp_string_consumes(s.skip(2));
        }
    } else {
        lemma_sp_string_consumes(s.skip(1));
    }
}

pub proof fn lemma_sp_op_consumes(s: Seq<char>)
    ensures
        sp_op(s) matches Some(opr) ==> opr.1.len() < s.len(),
{
    match sp_lit(s, lo_head()) {
        None => {},
        Some(s1) => {
            lemma_sp_string_consumes(s1);
            match sp_string(s1) {
                None => {},
                Some(ps) => {
                    lemma_sp_string_consumes(ps.1.skip(lo_mid().len() as int));
                },
            }
        },
    }
}

/// Consume the members of a non-empty operations array, closing bracket
/// included.
pub open spec fn sp_ops_items(s: Seq<char>) -> Option<(Seq<OpView>, Seq<char>)>
    decreases s.len(),
    via sp_ops_items_dec
{
    match sp_op(s) {
        None => None,
        Some(opr) => {
            if opr.1.len() > 0 && opr.1[0] == ',' {
                match sp_ops_items(opr.1.skip(1)) {
                    None => None,
                    Some(rest) => Some((seq![opr.0] + rest.0, rest.1)),
                }
            } else if opr.1.len() > 0 && opr.1[0] == ']' {
                Some((seq![opr.0], opr.1.skip(1)))
            } else {
                None
            }
        },
    }
}

#[via_fn]
proof fn sp_ops_items_dec(s: Seq<char>) {
    lemma_sp_op_consumes(s);
}

/// Consume an operations array after its opening bracket, closing bracket
/// included.
pub open spec fn sp_ops_list(s: Seq<char>) -> Option<(Seq<OpView>, Seq<char>)> {
    if s.len() > 0 && s[0] == ']' {
        Some((Seq::empty(), s.skip(1)))
    } else {
        sp_ops_items(s)
    }
}

/// A whole write-ahead-log line.
pub open spec fn sp_wal(s: Seq<char>) -> Option<WalEntryView> {
    match sp_lit(s, lw_head()) {
        None => None,
        Some(s1) => match sp_string(s1) {
            None => None,
            Some(ts) => match sp_lit(ts.1, l_ops()) {
                None => None,
                Some(s3) => match sp_ops_list(s3) {
                    None => None,
                    Some(os) => match sp_lit(os.1, seq!['}']) {
                        None => None,
                        Some(s5) => if s5.len() == 0 {
                            Some(WalEntryView { transaction_id: ts.0, operations: os.0 })
                        } else {
                            None
                        },
                    },
                },
            },
        },
    }
}

/// A whole ops-log line.
pub open spec fn sp_ops_entry(s: Seq<char>) -> Option<OpsLogEntryView> {
    match sp_lit(s, lp_head()) {
        None => None,
        Some(s1) => match sp_string(s1) {
            None => None,
            Some(ids) => match sp_lit(ids.1, lp_ts()) {
                None => None,
                Some(s3) => match sp_number(s3) {
                    None => None,
                    Some(ns) => match sp_lit(ns.1, lp_tx()) {
                        None => None,
                        Some(s5) => match sp_string(s5) {
                            None => None,
                            Some(txs) => match sp_lit(txs.1, l_ops()) {
                                None => None,
                                Some(s7) => match sp_ops_list(s7) {
                                    None => None,
                                    Some(os) => match sp_lit(os.1, seq!['}']) {
                                        None => None,
                                        Some(s9) => if s9.len() == 0 {
                                            Some(
                                                OpsLogEntryView {
                                                    id: ids.0,
                                                    timestamp: ns.0,
                                                    transaction_id: txs.0,
                                                    operations: os.0,
                                                },
                                            )
                                        } else {
                                            None
                                        },
                                    },
                                },
                            },
                        },
                    },
                },
            },
        },
    }
}

// ---------------------------------------------------------------------------
// Round trip: the canonical encoding is in the grammar and parses back to
// the value it came from.
// ---------------------------------------------------------------------------
pub proof fn lemma_sp_lit_prefix(lit: Seq<char>, rest: Seq<char>)
    ensures
        sp_lit(lit + rest, lit) == Some(rest),
{
    let s = lit + rest;
    assert(s.subrange(0, lit.len() as int) =~= lit);
    assert(lit.is_prefix_of(s));
    assert(s.skip(lit.len() as int) =~= rest);
}

pub proof fn lemma_sp_string_enc(d: Seq<char>, rest: Seq<char>)
    ensures
        sp_string(esc_str(d) + seq!['"'] + rest) == Some((d, rest)),
    decreases d.len(),
{
    let s = esc_str(d) + seq!['"'] + rest;
    if d.len() == 0 {
        assert(esc_str(d) =~= Seq::<char>::empty());
        assert(s[0] == '"');
        assert(s.skip(1) =~= rest);
        assert(Seq::<char>::empty() =~= d);
    } else {
        let c = d[0];
        let dtail = d.skip(1);
        lemma_sp_string_enc(dtail, rest);
        if needs_escape(c) {
            assert(s[0] == '\\');
            assert(s[1] == escape_code(c));
            assert(unescape_code(escape_code(c)) == Some(c));
            assert(s.skip(2) =~= esc_str(dtail) + seq!['"'] + rest);
            assert(seq![c] + dtail =~= d);
        } else {
            assert(s[0] == c);
            assert(c != '"' && c != '\\');
            assert(s.skip(1) =~= esc_str(dtail) + seq!['"'] + rest);
            assert(seq![c] + dtail =~= d);
        }
    }
}

/// The accumulated value of a digit run appended after earlier digits.
pub open spec fn dec_scale(acc: nat, n: nat) -> nat
    decreases n,
{
    if n < 10 {
        acc * 10 + n
    } else {
        dec_scale(acc, n / 10) * 10 + n % 10
    }
}

pub proof fn lemma_dec_scale_zero(n: nat)
    ensures
        dec_scale(0, n) == n,
    decreases n,
{
    if n >= 10 {
        lemma_dec_scale_zero(n / 10);
        vstd::arithmetic::div_mod::lemma_fundamental_div_mod(n as int, 10);
    }
}

pub proof fn lemma_sp_digits_enc(n: nat, acc: nat, rest: Seq<char>)
    ensures
        sp_digits(dec_rep(n) + rest, acc) == sp_digits(rest, dec_scale(acc, n)),
    decreases n,
{
    if n < 10 {
        let s = dec_rep(n) + rest;
        assert(s[0] == digit_char(n));
        lemma_digit_roundtrip(n);
        assert(s.skip(1) =~= rest);
    } else {
        let inner = seq![digit_char(n % 10)] + rest;
        assert(dec_rep(n) + rest =~= dec_rep(n / 10) + inner);
        lemma_sp_digits_enc(n / 10, acc, inner);
        assert(inner[0] == digit_char(n % 10));
        lemma_digit_roundtrip(n % 10);
        assert(inner.skip(1) =~= rest);
    }
}

pub proof fn lemma_sp_number_enc(n: u64, rest: Seq<char>)
    requires
        rest.len() == 0 || digit_val(rest[0]) is None,
    ensures
        sp_number(dec_rep(n as nat) + rest) == Some((n, rest)),
{
    let s = dec_rep(n as nat) + rest;
    lemma_dec_rep_first(n as nat);
    assert(s[0] == dec_rep(n as nat)[0]);
    if s[0] == '0' {
        // then n == 0, the representation is the single digit, and the
        // next character is not a digit, so the leading-zero guard passes
        assert(n == 0) by {
            if n >= 1 {
                assert(dec_rep(n as nat)[0] != '0');
            }
        }
        assert(dec_rep(n as nat) =~= seq!['0']);
        if s.len() > 1 {
            assert(s[1] == rest[0]);
        }
    } else {
        if n < 10 {
        } else {
            lemma_dec_rep_first((n as nat) / 10);
        }
    }
    lemma_sp_digits_enc(n as nat, 0, rest);
    lemma_dec_scale_zero(n as nat);
    if rest.len() > 0 {
        assert(sp_digits(rest, n as nat) == (n as nat, rest));
    }
}

pub proof fn lemma_sp_op_enc(op: OpView, rest: Seq<char>)
    ensures
        sp_op(op_json(op) + rest) == Some((op, rest)),
{
    let s = op_json(op) + rest;
    let after_path = lo_mid() + esc_str(op.content) + seq!['"', '}'] + rest;
    let t1 = esc_str(op.path) + seq!['"'] + after_path;
    assert(s =~= lo_head() + t1);
    lemma_sp_lit_prefix(lo_head(), t1);
    lemma_sp_string_enc(op.path, after_path);
    let after_mid = esc_str(op.content) + seq!['"', '}'] + rest;
    assert(after_path =~= lo_mid() + after_mid);
    lemma_sp_lit_prefix(lo_mid(), after_mid);
    let t2 = seq!['}'] + rest;
    assert(after_mid =~= esc_str(op.content) + seq!['"'] + t2);
    lemma_sp_string_enc(op.content, t2);
    lemma_sp_lit_prefix(seq!['}'], rest);
    assert(sp_op(s) == Some((OpView { path: op.path, content: op.content }, rest)));
    assert(OpView { path: op.path, content: op.content } == op);
}

pub proof fn lemma_sp_ops_items_enc(ops: Seq<OpView>, rest: Seq<char>)
    requires
        ops.len() > 0,
    ensures
        sp_ops_items(ops_items_enc(ops) + seq![']'] + rest) == Some((ops, rest)),
    decreases ops.len(),
{
    let s = ops_items_enc(ops) + seq![']'] + rest;
    if ops.len() == 1 {
        let tail = seq![']'] + rest;
        assert(s =~= op_json(ops[0]) + tail);
        lemma_sp_op_enc(ops[0], tail);
        assert(tail[0] == ']');
        assert(tail.skip(1) =~= rest);
        assert(seq![ops[0]] =~= ops);
    } else {
        let tail = seq![','] + (ops_items_enc(ops.skip(1)) + seq![']'] + rest);
        assert(s =~= op_json(ops[0]) + tail);
        lemma_sp_op_enc(ops[0], tail);
        assert(tail[0] == ',');
        assert(tail.skip(1) =~= ops_items_enc(ops.skip(1)) + seq![']'] + rest);
        lemma_sp_ops_items_enc(ops.skip(1), rest);
        assert(seq![ops[0]] + ops.skip(1) =~= ops);
    }
}

pub proof fn lemma_sp_ops_list_enc(ops: Seq<OpView>, rest: Seq<char>)
    ensures
        sp_ops_list(ops_list_enc(ops) + rest) == Some((ops, rest)),
{
    let s = ops_list_enc(ops) + rest;
    if ops.len() == 0 {
        assert(ops_list_enc(ops) =~= seq![']']);
        assert(s[0] == ']');
        assert(s.skip(1) =~= rest);
        assert(Seq::<OpView>::empty() =~= ops);
    } else {
        assert(s =~= ops_items_enc(ops) + seq![']'] + rest);
        assert(s[0] == op_json(ops[0])[0]);
        assert(op_json(ops[0])[0] == lo_head()[0]);
        assert(s[0] == '{');
        lemma_sp_ops_items_enc(ops, rest);
    }
}

/// Whatever `wal_line` writes, the grammar reads back unchanged.
pub proof fn lemma_wal_roundtrip(e: WalEntryView)
    ensures
        sp_wal(wal_line(e)) == Some(e),
{
    let s = wal_line(e);
    let after_tx = l_ops() + ops_list_enc(e.operations) + seq!['}'];
    let t1 = esc_str(e.transaction_id) + seq!['"'] + after_tx;
    assert(s =~= lw_head() + t1);
    lemma_sp_lit_prefix(lw_head(), t1);
    lemma_sp_string_enc(e.transaction_id, after_tx);
    let after_ops_key = ops_list_enc(e.operations) + seq!['}'];
    assert(after_tx =~= l_ops() + after_ops_key);
    lemma_sp_lit_prefix(l_ops(), after_ops_key);
    lemma_sp_ops_list_enc(e.operations, seq!['}']);
    lemma_sp_lit_prefix(seq!['}'], Seq::empty());
    assert(seq!['}'] + Seq::<char>::empty() =~= seq!['}']);
    assert(sp_wal(s) == Some(WalEntryView { transaction_id: e.transaction_id, operations: e.operations }));
    assert(WalEntryView { transaction_id: e.transaction_id, operations: e.operations } == e);
}

/// Whatever `ops_line` writes, the grammar reads back unchanged.
pub proof fn lemma_ops_roundtrip(e: OpsLogEntryView)
    ensures
        sp_ops_entry(ops_line(e)) == Some(e),
{
    let s = ops_line(e);
    let after_num = lp_tx() + esc_str(e.transaction_id) + seq!['"'] + l_ops() + ops_list_enc(
        e.operations,
    ) + seq!['}'];
    let after_id = lp_ts() + dec_rep(e.timestamp as nat) + after_num;
    let t1 = esc_str(e.id) + seq!['"'] + after_id;
    assert(s =~= lp_head() + t1);
    lemma_sp_lit_prefix(lp_head(), t1);
    lemma_sp_string_enc(e.id, after_id);
    let after_ts_key = dec_rep(e.timestamp as nat) + after_num;
    assert(after_id =~= lp_ts() + after_ts_key);
    lemma_sp_lit_prefix(lp_ts(), after_ts_key);
    assert(after_num[0] == ',');
    assert(digit_val(',') is None);
    lemma_sp_number_enc(e.timestamp, after_num);
    let after_tx = l_ops() + ops_list_enc(e.operations) + seq!['}'];
    let t2 = esc_str(e.transaction_id) + seq!['"'] + after_tx;
    assert(after_num =~= lp_tx() + t2);
    lemma_sp_lit_prefix(lp_tx(), t2);
    lemma_sp_string_enc(e.transaction_id, after_tx);
    let after_ops_key = ops_list_enc(e.operations) + seq!['}'];
    assert(after_tx =~= l_ops() + after_ops_key);
    lemma_sp_lit_prefix(l_ops(), after_ops_key);
    lemma_sp_ops_list_enc(e.operations, seq!['}']);
    lemma_sp_lit_prefix(seq!['}'], Seq::empty());
    assert(seq!['}'] + Seq::<char>::empty() =~= seq!['}']);
    assert(sp_ops_entry(s) == Some(
        OpsLogEntryView {
            id: e.id,
            timestamp: e.timestamp,
            transaction_id: e.transaction_id,
            operations: e.operations,
        },
    ));
    assert(OpsLogEntryView {
        id: e.id,
        timestamp: e.timestamp,
        transaction_id: e.transaction_id,
        operations: e.operations,
    } == e);
}

/// True when no character of `s` is a newline.
pub open spec fn no_newline(s: Seq<char>) -> bool {
    forall|i: int| 0 <= i < s.len() ==> s[i] != '\n'
}

proof fn lemma_no_newline_concat(a: Seq<char>, b: Seq<char>)
    requires
        no_newline(a),
        no_newline(b),
    ensures
        no_newline(a + b),
{
    assert forall|i: int| 0 <= i < (a + b).len() implies (a + b)[i] != '\n' by {
        if i < a.len() {
            assert((a + b)[i] == a[i]);
        } else {
            assert((a + b)[i] == b[i - a.len()]);
        }
    }
}

proof fn lemma_esc_no_newline(s: Seq<char>)
    ensures
        no_newline(esc_str(s)),
{
    lemma_esc_str_no_newline(s);
}

proof fn lemma_ops_items_no_newline(ops: Seq<OpView>)
    ensures
        no_newline(ops_items_enc(ops)),
    decreases ops.len(),
{
    if ops.len() == 0 {
    } else {
        lemma_op_json_no_newline(ops[0]);
        if ops.len() == 1 {
        } else {
            lemma_ops_items_no_newline(ops.skip(1));
            lemma_no_newline_concat(op_json(ops[0]), seq![',']);
            lemma_no_newline_concat(op_json(ops[0]) + seq![','], ops_items_enc(ops.skip(1)));
        }
    }
}

proof fn lemma_ops_list_no_newline(ops: Seq<OpView>)
    ensures
        no_newline(ops_list_enc(ops)),
{
    lemma_ops_items_no_newline(ops);
    lemma_no_newline_concat(ops_items_enc(ops), seq![']']);
}

proof fn lemma_op_json_no_newline(op: OpView)
    ensures
        no_newline(op_json(op)),
{
    lemma_esc_no_newline(op.path);
    lemma_esc_no_newline(op.content);
    let a1 = lo_head();
    let a2 = a1 + esc_str(op.path);
    let a3 = a2 + seq!['"'];
    let a4 = a3 + lo_mid();
    let a5 = a4 + esc_str(op.content);
    lemma_no_newline_concat(a1, esc_str(op.path));
    lemma_no_newline_concat(a2, seq!['"']);
    lemma_no_newline_concat(a3, lo_mid());
    lemma_no_newline_concat(a4, esc_str(op.content));
    lemma_no_newline_concat(a5, seq!['"', '}']);
}

/// No character of a write-ahead-log line is a newline: the record stays
/// on its one line of the file.
pub proof fn lemma_wal_line_no_newline(e: WalEntryView)
    ensures
        no_newline(wal_line(e)),
{
    lemma_esc_no_newline(e.transaction_id);
    lemma_ops_list_no_newline(e.operations);
    let a1 = lw_head();
    let a2 = a1 + esc_str(e.transaction_id);
    let a3 = a2 + seq!['"'];
    let a4 = a3 + l_ops();
    let a5 = a4 + ops_list_enc(e.operations);
    lemma_no_newline_concat(a1, esc_str(e.transaction_id));
    lemma_no_newline_concat(a2, seq!['"']);
    lemma_no_newline_concat(a3, l_ops());
    lemma_no_newline_concat(a4, ops_list_enc(e.operations));
    lemma_no_newline_concat(a5, seq!['}']);
}

/// No character of an ops-log line is a newline.
pub proof fn lemma_ops_line_no_newline(e: OpsLogEntryView)
    ensures
        no_newline(ops_line(e)),
{
    lemma_esc_no_newline(e.id);
    lemma_esc_no_newline(e.transaction_id);
    lemma_dec_rep_no_newline(e.timestamp as nat);
    lemma_ops_list_no_newline(e.operations);
    let a1 = lp_head();
    let a2 = a1 + esc_str(e.id);
    let a3 = a2 + seq!['"'];
    let a4 = a3 + lp_ts();
    let a5 = a4 + dec_rep(e.timestamp as nat);
    let a6 = a5 + lp_tx();
    let a7 = a6 + esc_str(e.transaction_id);
    let a8 = a7 + seq!['"'];
    let a9 = a8 + l_ops();
    let a10 = a9 + ops_list_enc(e.operations);
    lemma_no_newline_concat(a1, esc_str(e.id));
    lemma_no_newline_concat(a2, seq!['"']);
    lemma_no_newline_concat(a3, lp_ts());
    lemma_no_newline_concat(a4, dec_rep(e.timestamp as nat));
    lemma_no_newline_concat(a5, lp_tx());
    lemma_no_newline_concat(a6, esc_str(e.transaction_id));
    lemma_no_newline_concat(a7, seq!['"']);
    lemma_no_newline_concat(a8, l_ops());
    lemma_no_newline_concat(a9, ops_list_enc(e.operations));
    lemma_no_newline_concat(a10, seq!['}']);
}

// ---------------------------------------------------------------------------
// The executable encoder
// ---------------------------------------------------------------------------
fn lw_head_vec() -> (v: Vec<char>)
    ensures
        v@ == lw_head(),
{
    let v = to_chars("{\"transaction_id\":\"");
    proof {
        reveal_strlit("{\"transaction_id\":\"");
        assert(v@ =~= lw_head());
    }
    v
}

fn l_ops_vec() -> (v: Vec<char>)
    ensures
        v@ == l_ops(),
{
    let v = to_chars(",\"operations\":[");
    proof {
        reveal_strlit(",\"operations\":[");
        assert(v@ =~= l_ops());
    }
    v
}

fn lo_head_vec() -> (v: Vec<char>)
    ensures
        v@ == lo_head(),
{
    let v = to_chars("{\"path\":\"");
    proof {
        reveal_strlit("{\"path\":\"");
        assert(v@ =~= lo_head());
    }
    v
}

fn lo_mid_vec() -> (v: Vec<char>)
    ensures
        v@ == lo_mid(),
{
    let v = to_chars(",\"content\":\"");
    proof {
        reveal_strlit(",\"content\":\"");
        assert(v@ =~= lo_mid());
    }
    v
}

fn lp_head_vec() -> (v: Vec<char>)
    ensures
        v@ == lp_head(),
{
    let v = to_chars("{\"id\":\"");
    proof {
        reveal_strlit("{\"id\":\"");
        assert(v@ =~= lp_head());
    }
    v
}

fn lp_ts_vec() -> (v: Vec<char>)
    ensures
        v@ == lp_ts(),
{
    let v = to_chars(",\"timestamp\":");
    proof {
        reveal_strlit(",\"timestamp\":");
        assert(v@ =~= lp_ts());
    }
    v
}

fn lp_tx_vec() -> (v: Vec<char>)
    ensures
        v@ == lp_tx(),
{
    let v = to_chars(",\"transaction_id\":\"");
    proof {
        reveal_strlit(",\"transaction_id\":\"");
        assert(v@ =~= lp_tx());
    }
    v
}

fn push_escaped(out: &mut Vec<char>, s: &Vec<char>)
    ensures
        final(out)@ == old(out)@ + esc_str(s@),
{
    let mut i: usize = 0;
    while i < s.len()
        invariant
            i <= s@.len(),
            out@ == old(out)@ + esc_str(s@.take(i as int)),
        decreases s.len() - i,
    {
        let c = s[i];
        if c == '"' {
            out.push('\\');
            out.push('"');
        } else if c == '\\' {
            out.push('\\');
            out.push('\\');
        } else if c == '\n' {
            out.push('\\');
            out.push('n');
        } else if c == '\r' {
            out.push('\\');
            out.push('r');
        } else if c == '\t' {
            out.push('\\');
            out.push('t');
        } else {
            out.push(c);
        }
        proof {
            assert(s@.take(i as int + 1) =~= s@.take(i as int) + seq![s@[i as int]]);
            lemma_esc_str_concat(s@.take(i as int), seq![s@[i as int]]);
            assert(seq![s@[i as int]].skip(1) =~= Seq::<char>::empty());
            assert(esc_str(Seq::<char>::empty()) == Seq::<char>::empty());
            assert(esc_str(seq![s@[i as int]]) == esc_char(s@[i as int]) + esc_str(
                seq![s@[i as int]].skip(1),
            ));
            assert(esc_str(seq![s@[i as int]]) =~= esc_char(s@[i as int]));
            assert(out@ =~= old(out)@ + esc_str(s@.take(i as int + 1)));
        }
        i = i + 1;
    }
    proof {
        assert(s@.take(s@.len() as int) =~= s@);
    }
}

fn digit_to_char(n: u64) -> (c: char)
    requires
        n < 10,
    ensures
        c == digit_char(n as nat),
{
    if n == 0 {
        '0'
    } else if n == 1 {
        '1'
    } else if n == 2 {
        '2'
    } else if n == 3 {
        '3'
    } else if n == 4 {
        '4'
    } else if n == 5 {
        '5'
    } else if n == 6 {
        '6'
    } else if n == 7 {
        '7'
    } else if n == 8 {
        '8'
    } else {
        '9'
    }
}

fn push_dec(out: &mut Vec<char>, n: u64)
    ensures
        final(out)@ == old(out)@ + dec_rep(n as nat),
    decreases n,
{
    if n < 10 {
        out.push(digit_to_char(n));
        proof {
            assert(out@ =~= old(out)@ + dec_rep(n as nat));
        }
    } else {
        push_dec(out, n / 10);
        out.push(digit_to_char(n % 10));
        proof {
            assert(out@ =~= old(out)@ + dec_rep(n as nat));
        }
    }
}

proof fn lemma_ops_items_enc_snoc(ops: Seq<OpView>, op: OpView)
    ensures
        ops_items_enc(ops.push(op)) == if ops.len() == 0 {
            op_json(op)
        } else {
            ops_items_enc(ops) + seq![','] + op_json(op)
        },
    decreases ops.len(),
{
    let e = ops.push(op);
    if ops.len() == 0 {
        assert(e[0] == op);
        assert(ops_items_enc(e) =~= op_json(op));
    } else {
        assert(e.len() >= 2);
        assert(e[0] == ops[0]);
        assert(e.skip(1) =~= ops.skip(1).push(op));
        lemma_ops_items_enc_snoc(ops.skip(1), op);
        if ops.len() == 1 {
            assert(ops_items_enc(ops) =~= op_json(ops[0]));
            assert(ops_items_enc(e) =~= ops_items_enc(ops) + seq![','] + op_json(op));
        } else {
            assert(ops_items_enc(e) =~= ops_items_enc(ops) + seq![','] + op_json(op));
        }
    }
}

fn push_op_json(out: &mut Vec<char>, op: &WriteOperation)
    ensures
        final(out)@ == old(out)@ + op_json(op@),
{
    let lit = lo_head_vec();
    push_all(out, &lit);
    let path = to_chars(op.path.as_str());
    push_escaped(out, &path);
    out.push('"');
    let lit2 = lo_mid_vec();
    push_all(out, &lit2);
    let content = to_chars(op.content.as_str());
    push_escaped(out, &content);
    out.push('"');
    out.push('}');
    proof {
        assert(out@ =~= old(out)@ + op_json(op@));
    }
}

fn push_ops_list(out: &mut Vec<char>, ops: &Vec<WriteOperation>)
    ensures
        final(out)@ == old(out)@ + ops_list_enc(
            ops@.map_values(|op: WriteOperation| op@),
        ),
{
    let ghost vops = ops@.map_values(|op: WriteOperation| op@);
    let mut i: usize = 0;
    while i < ops.len()
        invariant
            i <= ops@.len(),
            vops == ops@.map_values(|op: WriteOperation| op@),
            out@ == old(out)@ + ops_items_enc(vops.take(i as int)),
        decreases ops.len() - i,
    {
        if i > 0 {
            out.push(',');
        }
        push_op_json(out, &ops[i]);
        proof {
            assert(vops.take(i as int + 1) =~= vops.take(i as int).push(vops[i as int]));
            lemma_ops_items_enc_snoc(vops.take(i as int), vops[i as int]);
            assert(vops[i as int] == ops@[i as int]@);
            assert(out@ =~= old(out)@ + ops_items_enc(vops.take(i as int + 1)));
        }
        i = i + 1;
    }
    out.push(']');
    proof {
        assert(vops.take(vops.len() as int) =~= vops);
        assert(out@ =~= old(out)@ + ops_list_enc(vops));
    }
}

/// The one line recording a pending transaction, exactly as the grammar
/// reads it back (the trailing newline is the caller's framing).
pub fn encode_wal_line(e: &WalEntry) -> (r: String)
    ensures
        r@ == wal_line(e@),
{
    let mut out: Vec<char> = Vec::new();
    let lit = lw_head_vec();
    push_all(&mut out, &lit);
    let tx = to_chars(e.transaction_id.as_str());
    push_escaped(&mut out, &tx);
    out.push('"');
    let lit2 = l_ops_vec();
    push_all(&mut out, &lit2);
    push_ops_list(&mut out, &e.operations);
    out.push('}');
    proof {
        assert(out@ =~= wal_line(e@));
    }
    from_chars(&out)
}

/// The one line recording a completed transaction in the audit log.
pub fn encode_ops_line(e: &OpsLogEntry) -> (r: String)
    ensures
        r@ == ops_line(e@),
{
    let mut out: Vec<char> = Vec::new();
    let lit = lp_head_vec();
    push_all(&mut out, &lit);
    let id = to_chars(e.id.as_str());
    push_escaped(&mut out, &id);
    out.push('"');
    let lit2 = lp_ts_vec();
    push_all(&mut out, &lit2);
    push_dec(&mut out, e.timestamp);
    let lit3 = lp_tx_vec();
    push_all(&mut out, &lit3);
    let tx = to_chars(e.transaction_id.as_str());
    push_escaped(&mut out, &tx);
    out.push('"');
    let lit4 = l_ops_vec();
    push_all(&mut out, &lit4);
    push_ops_list(&mut out, &e.operations);
    out.push('}');
    proof {
        assert(out@ =~= ops_line(e@));
    }
    from_chars(&out)
}

// ---------------------------------------------------------------------------
// The executable parser
// ---------------------------------------------------------------------------
fn char_digit(c: char) -> (r: Option<u64>)
    ensures
        r is Some <==> digit_val(c) is Some,
        r matches Some(v) ==> v < 10 && digit_val(c) == Some(v as nat),
{
    if c == '0' {
        Some(0)
    } else if c == '1' {
        Some(1)
    } else if c == '2' {
        Some(2)
    } else if c == '3' {
        Some(3)
    } else if c == '4' {
        Some(4)
    } else if c == '5' {
        Some(5)
    } else if c == '6' {
        Some(6)
    } else if c == '7' {
        Some(7)
    } else if c == '8' {
        Some(8)
    } else if c == '9' {
        Some(9)
    } else {
        None
    }
}

fn ex_lit(s: &Vec<char>, i: usize, lit: &Vec<char>) -> (r: Option<usize>)
    requires
        i <= s@.len(),
    ensures
        match r {
            Some(j) => i <= j <= s@.len() && sp_lit(s@.skip(i as int), lit@) == Some(
                s@.skip(j as int),
            ),
            None => sp_lit(s@.skip(i as int), lit@) is None,
        },
{
    if s.len() - i < lit.len() {
        proof {
            assert(s@.skip(i as int).len() < lit@.len());
            assert(!lit@.is_prefix_of(s@.skip(i as int)));
        }
        return None;
    }
    let mut k: usize = 0;
    while k < lit.len()
        invariant
            i + lit@.len() <= s@.len(),
            s@.len() <= usize::MAX,
            k <= lit@.len(),
            forall|t: int| 0 <= t < k ==> s@[i + t] == lit@[t],
        decreases lit.len() - k,
    {
        if s[i + k] != lit[k] {
            proof {
                assert(s@.skip(i as int)[k as int] == s@[i + k as int]);
                if lit@.is_prefix_of(s@.skip(i as int)) {
                    assert(lit@ =~= s@.skip(i as int).subrange(0, lit@.len() as int));
                    assert(lit@[k as int] == s@.skip(i as int)[k as int]);
                    assert(false);
                }
            }
            return None;
        }
        k = k + 1;
    }
    proof {
        assert(lit@ =~= s@.skip(i as int).subrange(0, lit@.len() as int));
        assert(lit@.is_prefix_of(s@.skip(i as int)));
        assert(s@.skip(i as int).skip(lit@.len() as int) =~= s@.skip(i + lit@.len()));
    }
    Some(i + lit.len())
}

fn ex_string(s: &Vec<char>, i: usize) -> (r: Option<(Vec<char>, usize)>)
    requires
        i <= s@.len(),
    ensures
        match r {
            Some(dj) => i <= dj.1 <= s@.len() && sp_string(s@.skip(i as int)) == Some(
                (dj.0@, s@.skip(dj.1 as int)),
            ),
            None => sp_string(s@.skip(i as int)) is None,
        },
{
    let mut d: Vec<char> = Vec::new();
    let mut p: usize = i;
    loop
        invariant
            i <= p <= s@.len(),
            match sp_string(s@.skip(p as int)) {
                None => sp_string(s@.skip(i as int)) is None,
                Some(dr) => sp_string(s@.skip(i as int)) == Some((d@ + dr.0, dr.1)),
            },
        decreases s@.len() - p,
    {
        if p == s.len() {
            proof {
                assert(s@.skip(p as int).len() == 0);
            }
            return None;
        }
        let c = s[p];
        proof {
            assert(s@.skip(p as int)[0] == s@[p as int]);
        }
        if c == '"' {
            proof {
                assert(s@.skip(p as int).skip(1) =~= s@.skip(p + 1));
                assert(sp_string(s@.skip(p as int)) == Some(
                    (Seq::<char>::empty(), s@.skip(p + 1)),
                ));
                assert(d@ + Seq::<char>::empty() =~= d@);
            }
            return Some((d, p + 1));
        } else if c == '\\' {
            if p + 1 == s.len() {
                proof {
                    assert(s@.skip(p as int).len() < 2);
                }
                return None;
            }
            let c2 = s[p + 1];
            proof {
                assert(s@.skip(p as int)[1] == s@[p + 1]);
            }
            let u: char;
            if c2 == '"' {
                u = '"';
            } else if c2 == '\\' {
                u = '\\';
            } else if c2 == 'n' {
                u = '\n';
            } else if c2 == 'r' {
                u = '\r';
            } else if c2 == 't' {
                u = '\t';
            } else {
                proof {
                    assert(unescape_code(s@.skip(p as int)[1]) is None);
                }
                return None;
            }
            proof {
                assert(unescape_code(s@.skip(p as int)[1]) == Some(u));
                assert(s@.skip(p as int).skip(2) =~= s@.skip(p + 2));
                match sp_string(s@.skip(p + 2)) {
                    None => {},
                    Some(dr) => {
                        assert(sp_string(s@.skip(p as int)) == Some((seq![u] + dr.0, dr.1)));
                        assert((d@.push(u)) + dr.0 =~= d@ + (seq![u] + dr.0));
                    },
                }
            }
            d.push(u);
            p = p + 2;
        } else {
            proof {
                assert(s@.skip(p as int).skip(1) =~= s@.skip(p + 1));
                match sp_string(s@.skip(p + 1)) {
                    None => {},
                    Some(dr) => {
                        assert(sp_string(s@.skip(p as int)) == Some((seq![c] + dr.0, dr.1)));
                        assert((d@.push(c)) + dr.0 =~= d@ + (seq![c] + dr.0));
                    },
                }
            }
            d.push(c);
            p = p + 1;
        }
    }
}

fn ex_number(s: &Vec<char>, i: usize) -> (r: Option<(u64, usize)>)
    requires
        i <= s@.len(),
    ensures
        match r {
            Some(vj) => i <= vj.1 <= s@.len() && sp_number(s@.skip(i as int)) == Some(
                (vj.0, s@.skip(vj.1 as int)),
            ),
            None => sp_number(s@.skip(i as int)) is None,
        },
{
    if i == s.len() {
        proof {
            assert(s@.skip(i as int).len() == 0);
        }
        return None;
    }
    proof {
        assert(s@.skip(i as int)[0] == s@[i as int]);
    }
    let first = match char_digit(s[i]) {
        None => {
            return None;
        },
        Some(v) => v,
    };
    if first == 0 && i + 1 < s.len() {
        proof {
            assert(s@.skip(i as int)[1] == s@[i + 1]);
        }
        if let Some(_) = char_digit(s[i + 1]) {
            proof {
                assert(s@.skip(i as int)[0] == '0');
            }
            return None;
        }
    }
    let ghost start = s@.skip(i as int);
    let mut acc: u64 = 0;
    let mut p: usize = i;
    loop
        invariant
            i <= p <= s@.len(),
            start == s@.skip(i as int),
            sp_digits(start, 0) == sp_digits(s@.skip(p as int), acc as nat),
        ensures
            i <= p <= s@.len(),
            sp_digits(start, 0) == (acc as nat, s@.skip(p as int)),
        decreases s@.len() - p,
    {
        if p == s.len() {
            proof {
                assert(s@.skip(p as int).len() == 0);
                assert(sp_digits(s@.skip(p as int), acc as nat) == (acc as nat, s@.skip(p as int)));
            }
            break;
        }
        proof {
            assert(s@.skip(p as int)[0] == s@[p as int]);
        }
        let dv = match char_digit(s[p]) {
            None => {
                proof {
                    assert(sp_digits(s@.skip(p as int), acc as nat) == (
                        acc as nat,
                        s@.skip(p as int),
                    ));
                }
                break;
            },
            Some(v) => v,
        };
        if acc > (u64::MAX - dv) / 10 {
            // the run of digits can only grow past the representable range
            proof {
                lemma_sp_digits_monotone(s@.skip(p as int).skip(1), acc as nat * 10 + dv as nat);
                assert(s@.skip(p as int).skip(1) =~= s@.skip(p + 1));
                assert(sp_digits(s@.skip(p as int), acc as nat) == sp_digits(
                    s@.skip(p + 1),
                    acc as nat * 10 + dv as nat,
                ));
                assert(acc as nat * 10 + dv as nat > u64::MAX) by (nonlinear_arith)
                    requires
                        acc as nat > ((u64::MAX - dv) / 10) as nat,
                        dv < 10,
                        acc <= u64::MAX,
                ;
                assert(sp_digits(start, 0).0 > u64::MAX);
            }
            return None;
        }
        proof {
            assert(acc as nat * 10 + dv as nat <= u64::MAX) by (nonlinear_arith)
                requires
                    acc as nat <= ((u64::MAX - dv) / 10) as nat,
                    dv < 10,
            ;
            assert(s@.skip(p as int).skip(1) =~= s@.skip(p + 1));
            assert(sp_digits(s@.skip(p as int), acc as nat) == sp_digits(
                s@.skip(p + 1),
                acc as nat * 10 + dv as nat,
            ));
        }
        acc = acc * 10 + dv;
        p = p + 1;
    }
    proof {
        assert(sp_digits(start, 0) == (acc as nat, s@.skip(p as int)));
        assert(sp_number(start) == Some((acc, s@.skip(p as int))));
    }
    Some((acc, p))
}

proof fn lemma_sp_digits_monotone(s: Seq<char>, acc: nat)
    ensures
        sp_digits(s, acc).0 >= acc,
    decreases s.len(),
{
    if s.len() > 0 && digit_val(s[0]) is Some {
        lemma_sp_digits_monotone(s.skip(1), acc * 10 + digit_val(s[0]).unwrap());
        assert(acc * 10 + digit_val(s[0]).unwrap() >= acc) by (nonlinear_arith);
    }
}

fn ex_op(s: &Vec<char>, i: usize) -> (r: Option<(WriteOperation, usize)>)
    requires
        i <= s@.len(),
    ensures
        match r {
            Some(oj) => i <= oj.1 <= s@.len() && sp_op(s@.skip(i as int)) == Some(
                (oj.0@, s@.skip(oj.1 as int)),
            ),
            None => sp_op(s@.skip(i as int)) is None,
        },
{
    let lit = lo_head_vec();
    let j1 = match ex_lit(s, i, &lit) {
        None => {
            return None;
        },
        Some(j) => j,
    };
    let (path, j2) = match ex_string(s, j1) {
        None => {
            return None;
        },
        Some(dj) => dj,
    };
    let lit2 = lo_mid_vec();
    let j3 = match ex_lit(s, j2, &lit2) {
        None => {
            return None;
        },
        Some(j) => j,
    };
    let (content, j4) = match ex_string(s, j3) {
        None => {
            return None;
        },
        Some(dj) => dj,
    };
    let brace = close_brace_vec();
    let j5 = match ex_lit(s, j4, &brace) {
        None => {
            return None;
        },
        Some(j) => j,
    };
    let op = WriteOperation { path: from_chars(&path), content: from_chars(&content) };
    proof {
        assert(sp_op(s@.skip(i as int)) == Some((OpView { path: path@, content: content@ }, s@.skip(j5 as int))));
    }
    Some((op, j5))
}

fn close_brace_vec() -> (v: Vec<char>)
    ensures
        v@ == seq!['}'],
{
    let mut v: Vec<char> = Vec::new();
    v.push('}');
    proof {
        assert(v@ =~= seq!['}']);
    }
    v
}

fn ex_ops_list(s: &Vec<char>, i: usize) -> (r: Option<(Vec<WriteOperation>, usize)>)
    requires
        i <= s@.len(),
    ensures
        match r {
            Some(oj) => i <= oj.1 <= s@.len() && sp_ops_list(s@.skip(i as int)) == Some(
                (oj.0@.map_values(|op: WriteOperation| op@), s@.skip(oj.1 as int)),
            ),
            None => sp_ops_list(s@.skip(i as int)) is None,
        },
{
    if i < s.len() && s[i] == ']' {
        let empty_ops: Vec<WriteOperation> = Vec::new();
        proof {
            assert(s@.skip(i as int)[0] == ']');
            assert(s@.skip(i as int).skip(1) =~= s@.skip(i + 1));
            assert(empty_ops@.map_values(|op: WriteOperation| op@) =~= Seq::<OpView>::empty());
        }
        return Some((empty_ops, i + 1));
    }
    proof {
        if s@.skip(i as int).len() > 0 {
            assert(s@.skip(i as int)[0] == s@[i as int]);
        }
        assert(!(s@.skip(i as int).len() > 0 && s@.skip(i as int)[0] == ']'));
    }
    let mut acc: Vec<WriteOperation> = Vec::new();
    let mut p: usize = i;
    loop
        invariant
            i <= p <= s@.len(),
            sp_ops_list(s@.skip(i as int)) == sp_ops_items(s@.skip(i as int)),
            match sp_ops_items(s@.skip(p as int)) {
                None => sp_ops_items(s@.skip(i as int)) is None,
                Some(or) => sp_ops_items(s@.skip(i as int)) == Some(
                    (acc@.map_values(|op: WriteOperation| op@) + or.0, or.1),
                ),
            },
        decreases s@.len() - p,
    {
        let (op, q) = match ex_op(s, p) {
            None => {
                return None;
            },
            Some(oj) => oj,
        };
        proof {
            lemma_sp_op_consumes(s@.skip(p as int));
        }
        if q < s.len() && s[q] == ',' {
            proof {
                assert(s@.skip(q as int)[0] == ',');
                assert(s@.skip(q as int).skip(1) =~= s@.skip(q + 1));
                let ghost vacc = acc@.map_values(|x: WriteOperation| x@);
                match sp_ops_items(s@.skip(q + 1)) {
                    None => {},
                    Some(rest) => {
                        assert(sp_ops_items(s@.skip(p as int)) == Some(
                            (seq![op@] + rest.0, rest.1),
                        ));
                        assert(acc@.push(op).map_values(|x: WriteOperation| x@) =~= vacc.push(
                            op@,
                        ));
                        assert(vacc.push(op@) + rest.0 =~= vacc + (seq![op@] + rest.0));
                    },
                }
            }
            acc.push(op);
            p = q + 1;
        } else if q < s.len() && s[q] == ']' {
            proof {
                assert(s@.skip(q as int)[0] == ']');
                assert(s@.skip(q as int)[0] != ',');
                assert(s@.skip(q as int).skip(1) =~= s@.skip(q + 1));
                let ghost vacc = acc@.map_values(|x: WriteOperation| x@);
                assert(sp_ops_items(s@.skip(p as int)) == Some((seq![op@], s@.skip(q + 1))));
                assert(acc@.push(op).map_values(|x: WriteOperation| x@) =~= vacc.push(op@));
                assert(vacc.push(op@) =~= vacc + seq![op@]);
            }
            acc.push(op);
            proof {
                assert(sp_ops_list(s@.skip(i as int)) == sp_ops_items(s@.skip(i as int)));
            }
            return Some((acc, q + 1));
        } else {
            proof {
                if s@.skip(q as int).len() > 0 {
                    assert(s@.skip(q as int)[0] == s@[q as int]);
                }
                assert(sp_ops_items(s@.skip(p as int)) is None);
            }
            return None;
        }
    }
}

/// Read one write-ahead-log line; `None` exactly when the line is not in
/// the grammar.
pub fn parse_wal_line(line: &str) -> (r: Option<WalEntry>)
    ensures
        match r {
            Some(e) => sp_wal(line@) == Some(e@),
            None => sp_wal(line@) is None,
        },
{
    let s = to_chars(line);
    proof {
        assert(s@.skip(0) =~= s@);
    }
    let lit = lw_head_vec();
    let j1 = match ex_lit(&s, 0, &lit) {
        None => {
            return None;
        },
        Some(j) => j,
    };
    let (tx, j2) = match ex_string(&s, j1) {
        None => {
            return None;
        },
        Some(dj) => dj,
    };
    let lit2 = l_ops_vec();
    let j3 = match ex_lit(&s, j2, &lit2) {
        None => {
            return None;
        },
        Some(j) => j,
    };
    let (ops, j4) = match ex_ops_list(&s, j3) {
        None => {
            return None;
        },
        Some(oj) => oj,
    };
    let brace = close_brace_vec();
    let j5 = match ex_lit(&s, j4, &brace) {
        None => {
            return None;
        },
        Some(j) => j,
    };
    if j5 != s.len() {
        proof {
            assert(s@.skip(j5 as int).len() != 0);
        }
        return None;
    }
    let e = WalEntry { transaction_id: from_chars(&tx), operations: ops };
    proof {
        assert(s@.skip(j5 as int).len() == 0);
        assert(sp_wal(s@) == Some(e@));
    }
    Some(e)
}

/// Read one ops-log line; `None` exactly when the line is not in the
/// grammar.
pub fn parse_ops_line(line: &str) -> (r: Option<OpsLogEntry>)
    ensures
        match r {
            Some(e) => sp_ops_entry(line@) == Some(e@),
            None => sp_ops_entry(line@) is None,
        },
{
    let s = to_chars(line);
    proof {
        assert(s@.skip(0) =~= s@);
    }
    let lit = lp_head_vec();
    let j1 = match ex_lit(&s, 0, &lit) {
        None => {
            return None;
        },
        Some(j) => j,
    };
    let (id, j2) = match ex_string(&s, j1) {
        None => {
            return None;
        },
        Some(dj) => dj,
    };
    let lit2 = lp_ts_vec();
    let j3 = match ex_lit(&s, j2, &lit2) {
        None => {
            return None;
        },
        Some(j) => j,
    };
    let (ts, j4) = match ex_number(&s, j3) {
        None => {
            return None;
        },
        Some(vj) => vj,
    };
    let lit3 = lp_tx_vec();
    let j5 = match ex_lit(&s, j4, &lit3) {
        None => {
            return None;
        },
        Some(j) => j,
    };
    let (tx, j6) = match ex_string(&s, j5) {
        None => {
            return None;
        },
        Some(dj) => dj,
    };
    let lit4 = l_ops_vec();
    let j7 = match ex_lit(&s, j6, &lit4) {
        None => {
            return None;
        },
        Some(j) => j,
    };
    let (ops, j8) = match ex_ops_list(&s, j7) {
        None => {
            return None;
        },
        Some(oj) => oj,
    };
    let brace = close_brace_vec();
    let j9 = match ex_lit(&s, j8, &brace) {
        None => {
            return None;
        },
        Some(j) => j,
    };
    if j9 != s.len() {
        proof {
            assert(s@.skip(j9 as int).len() != 0);
        }
        return None;
    }
    let e = OpsLogEntry {
        id: from_chars(&id),
        timestamp: ts,
        transaction_id: from_chars(&tx),
        operations: ops,
    };
    proof {
        assert(s@.skip(j9 as int).len() == 0);
        assert(sp_ops_entry(s@) == Some(e@));
    }
    Some(e)
}

} // verus!
