//! The durable storage format: a line per tunnel record.
//!
//! A store is the record count, a newline, then one record per line. Every
//! field of a record is length- or terminator-delimited, so any character
//! is allowed inside names, hostnames, key paths and passwords. The fields
//! that have a default (`use_key_auth`, `key_path`, `timeout`,
//! `auto_connect`, `saved_password`) are written as slots that can also be
//! absent (`-`); an absent slot resolves to the field's default on read, so
//! older stores that lack a field still load.
//!
//! Encoding and parsing are specified by the `enc_*` and `parse_*` spec
//! functions; the executable functions are proved to follow them, and
//! [`lemma_store_round_trip`] proves that parsing inverts encoding.

use vstd::prelude::*;
use vstd::arithmetic::div_mod::lemma_fundamental_div_mod;
use crate::tunnel::{AuthCredential, CredentialModel, TunnelDefinition, TunnelModel};

verus! {

// ---------------------------------------------------------------------
// Decimal digits
// ---------------------------------------------------------------------

/// Is `c` one of the characters `'0'` through `'9'`?
pub open spec fn is_dec_digit(c: char) -> bool {
    48 <= c as u32 && c as u32 <= 57
}

/// The numeric value of a decimal digit character.
pub open spec fn digit_value(c: char) -> nat
    recommends
        is_dec_digit(c),
{
    (c as u32 - 48) as nat
}

/// The character for one decimal digit.
pub open spec fn digit_char(d: nat) -> char
    recommends
        d < 10,
{
    if d == 0 {
        '0'
    } else if d == 1 {
        '1'
    } else if d == 2 {
        '2'
    } else if d == 3 {
        '3'
    } else if d == 4 {
        '4'
    } else if d == 5 {
        '5'
    } else if d == 6 {
        '6'
    } else if d == 7 {
        '7'
    } else if d == 8 {
        '8'
    } else {
        '9'
    }
}

proof fn lemma_digit_char(d: nat)
    requires
        d < 10,
    ensures
        is_dec_digit(digit_char(d)),
        digit_value(digit_char(d)) == d,
{
}

// ---------------------------------------------------------------------
// Spec-level encoding
// ---------------------------------------------------------------------

/// Canonical decimal digits of `n`, most significant first.
pub open spec fn enc_nat(n: nat) -> Seq<char>
    decreases n,
{
    if n < 10 {
        seq![digit_char(n)]
    } else {
        enc_nat(n / 10) + seq![digit_char(n % 10)]
    }
}

/// A number followed by its terminator character.
pub open spec fn enc_num(n: nat, term: char) -> Seq<char> {
    enc_nat(n) + seq![term]
}

/// A string: its character count, a `':'`, then the characters verbatim.
pub open spec fn enc_text(t: Seq<char>) -> Seq<char> {
    enc_num(t.len(), ':') + t
}

/// A present boolean slot.
pub open spec fn enc_flag(b: bool) -> Seq<char> {
    seq!['+', if b { 't' } else { 'f' }]
}

/// An optional-string slot: absent, or present with the string.
pub open spec fn enc_opt_text(o: Option<Seq<char>>) -> Seq<char> {
    match o {
        None => seq!['-'],
        Some(t) => seq!['+'] + enc_text(t),
    }
}

/// A present timeout slot.
pub open spec fn enc_timeout(n: nat) -> Seq<char> {
    seq!['+'] + enc_num(n, ';')
}

/// The key path a credential stores, if any.
pub open spec fn key_path_of(c: CredentialModel) -> Option<Seq<char>> {
    match c {
        CredentialModel::KeyAuth { key_path } => key_path,
        CredentialModel::PasswordAuth { .. } => None,
    }
}

/// The saved password a credential stores, if any.
pub open spec fn saved_password_of(c: CredentialModel) -> Option<Seq<char>> {
    match c {
        CredentialModel::KeyAuth { .. } => None,
        CredentialModel::PasswordAuth { saved_password } => saved_password,
    }
}

/// Does the credential authenticate with a key file?
pub open spec fn is_key_auth(c: CredentialModel) -> bool {
    c is KeyAuth
}

/// One stored record: the fields of one tunnel definition, then a newline.
pub open spec fn enc_record(d: TunnelModel) -> Seq<char> {
    enc_num(d.id as nat, ';') + (enc_text(d.name) + (enc_text(d.username) + (enc_text(d.hostname)
        + (enc_num(d.local_port as nat, ';') + (enc_num(d.remote_port as nat, ';') + (enc_flag(
        is_key_auth(d.credential),
    ) + (enc_opt_text(key_path_of(d.credential)) + (enc_timeout(d.timeout_seconds as nat) + (
    enc_flag(d.auto_connect) + (enc_opt_text(saved_password_of(d.credential))
        + seq!['\n']))))))))))
}

/// The records of a store, in order.
pub open spec fn enc_records(ds: Seq<TunnelModel>) -> Seq<char>
    decreases ds.len(),
{
    if ds.len() == 0 {
        Seq::empty()
    } else {
        enc_record(ds.first()) + enc_records(ds.drop_first())
    }
}

/// A whole store: the record count, a newline, then the records.
pub open spec fn enc_store(ds: Seq<TunnelModel>) -> Seq<char> {
    enc_num(ds.len(), '\n') + enc_records(ds)
}

/// The records of an export: the same records, each on its own line and
/// indented with two spaces for the operator to read.
pub open spec fn enc_pretty_records(ds: Seq<TunnelModel>) -> Seq<char>
    decreases ds.len(),
{
    if ds.len() == 0 {
        Seq::empty()
    } else {
        seq![' ', ' '] + (enc_record(ds.first()) + enc_pretty_records(ds.drop_first()))
    }
}

/// A whole export: the record count, then the indented records. It holds
/// the same data as [`enc_store`] and parses back to the same entries.
pub open spec fn enc_pretty_store(ds: Seq<TunnelModel>) -> Seq<char> {
    enc_num(ds.len(), '\n') + enc_pretty_records(ds)
}

// ---------------------------------------------------------------------
// Executable encoding
// ---------------------------------------------------------------------

fn digit_to_char(d: u64) -> (c: char)
    requires
        d < 10,
    ensures
        c == digit_char(d as nat),
{
    if d == 0 {
        '0'
    } else if d == 1 {
        '1'
    } else if d == 2 {
        '2'
    } else if d == 3 {
        '3'
    } else if d == 4 {
        '4'
    } else if d == 5 {
        '5'
    } else if d == 6 {
        '6'
    } else if d == 7 {
        '7'
    } else if d == 8 {
        '8'
    } else {
        '9'
    }
}

fn write_nat(out: &mut Vec<char>, n: u64)
    ensures
        final(out)@ == old(out)@ + enc_nat(n as nat),
    decreases n,
{
    if n < 10 {
        out.push(digit_to_char(n));
    } else {
        write_nat(out, n / 10);
        out.push(digit_to_char(n % 10));
        assert(out@ =~= old(out)@ + enc_nat(n as nat));
    }
}

fn write_num(out: &mut Vec<char>, n: u64, term: char)
    ensures
        final(out)@ == old(out)@ + enc_num(n as nat, term),
{
    write_nat(out, n);
    out.push(term);
    assert(out@ =~= old(out)@ + enc_num(n as nat, term));
}

fn write_text(out: &mut Vec<char>, t: &str)
    ensures
        final(out)@ == old(out)@ + enc_text(t@),
{
    let l = t.unicode_len();
    write_num(out, l as u64, ':');
    let mut i: usize = 0;
    while i < l
        invariant
            l == t@.len(),
            0 <= i <= l,
            out@ == old(out)@ + enc_num(t@.len(), ':') + t@.subrange(0, i as int),
        decreases l - i,
    {
        out.push(t.get_char(i));
        assert(t@.subrange(0, i + 1 as int) =~= t@.subrange(0, i as int).push(t@[i as int]));
        i = i + 1;
    }
    assert(t@.subrange(0, l as int) =~= t@);
    assert(out@ =~= old(out)@ + enc_text(t@));
}

fn write_flag(out: &mut Vec<char>, b: bool)
    ensures
        final(out)@ == old(out)@ + enc_flag(b),
{
    out.push('+');
    out.push(if b { 't' } else { 'f' });
    assert(out@ =~= old(out)@ + enc_flag(b));
}

fn write_opt_text(out: &mut Vec<char>, o: &Option<String>)
    ensures
        final(out)@ == old(out)@ + enc_opt_text(match o {
            Some(t) => Some(t@),
            None => None,
        }),
{
    match o {
        None => {
            out.push('-');
            assert(out@ =~= old(out)@ + enc_opt_text(None));
        },
        Some(t) => {
            out.push('+');
            write_text(out, t.as_str());
            assert(out@ =~= old(out)@ + enc_opt_text(Some(t@)));
        },
    }
}

fn write_timeout(out: &mut Vec<char>, n: u64)
    ensures
        final(out)@ == old(out)@ + enc_timeout(n as nat),
{
    out.push('+');
    write_num(out, n, ';');
    assert(out@ =~= old(out)@ + enc_timeout(n as nat));
}

fn write_record(out: &mut Vec<char>, d: &TunnelDefinition)
    ensures
        final(out)@ == old(out)@ + enc_record(d@),
{
    write_num(out, d.id, ';');
    write_text(out, d.name.as_str());
    write_text(out, d.username.as_str());
    write_text(out, d.hostname.as_str());
    write_num(out, d.local_port as u64, ';');
    write_num(out, d.remote_port as u64, ';');
    match &d.credential {
        AuthCredential::KeyAuth { key_path } => {
            write_flag(out, true);
            write_opt_text(out, key_path);
        },
        AuthCredential::PasswordAuth { .. } => {
            write_flag(out, false);
            write_opt_text(out, &None);
        },
    }
    write_timeout(out, d.timeout_seconds);
    write_flag(out, d.auto_connect);
    match &d.credential {
        AuthCredential::KeyAuth { .. } => {
            write_opt_text(out, &None);
        },
        AuthCredential::PasswordAuth { saved_password } => {
            write_opt_text(out, saved_password);
        },
    }
    out.push('\n');
    proof {
        let p1 = enc_num(d@.id as nat, ';');
        let p2 = enc_text(d@.name);
        let p3 = enc_text(d@.username);
        let p4 = enc_text(d@.hostname);
        let p5 = enc_num(d@.local_port as nat, ';');
        let p6 = enc_num(d@.remote_port as nat, ';');
        let p7 = enc_flag(is_key_auth(d@.credential));
        let p8 = enc_opt_text(key_path_of(d@.credential));
        let p9 = enc_timeout(d@.timeout_seconds as nat);
        let p10 = enc_flag(d@.auto_connect);
        let p11 = enc_opt_text(saved_password_of(d@.credential));
        let p12 = seq!['\n'];
        let a0 = old(out)@;
        let a1 = a0 + p1;
        let a2 = a1 + p2;
        let a3 = a2 + p3;
        let a4 = a3 + p4;
        let a5 = a4 + p5;
        let a6 = a5 + p6;
        let a7 = a6 + p7;
        let a8 = a7 + p8;
        let a9 = a8 + p9;
        let a10 = a9 + p10;
        let a11 = a10 + p11;
        assert(out@ =~= a11 + p12);
        let r11 = p11 + p12;
        let r10 = p10 + r11;
        let r9 = p9 + r10;
        let r8 = p8 + r9;
        let r7 = p7 + r8;
        let r6 = p6 + r7;
        let r5 = p5 + r6;
        let r4 = p4 + r5;
        let r3 = p3 + r4;
        let r2 = p2 + r3;
        let r1 = p1 + r2;
        seq_assoc(a10, p11, p12);
        seq_assoc(a9, p10, r11);
        seq_assoc(a8, p9, r10);
        seq_assoc(a7, p8, r9);
        seq_assoc(a6, p7, r8);
        seq_assoc(a5, p6, r7);
        seq_assoc(a4, p5, r6);
        seq_assoc(a3, p4, r5);
        seq_assoc(a2, p3, r4);
        seq_assoc(a1, p2, r3);
        seq_assoc(a0, p1, r2);
        assert(out@ == a0 + r1);
        assert(enc_record(d@) == r1);
    }
}

proof fn seq_assoc(a: Seq<char>, b: Seq<char>, c: Seq<char>)
    ensures
        (a + b) + c == a + (b + c),
{
    assert((a + b) + c =~= a + (b + c));
}

proof fn lemma_enc_records_push(ds: Seq<TunnelModel>, d: TunnelModel)
    ensures
        enc_records(ds.push(d)) == enc_records(ds) + enc_record(d),
    decreases ds.len(),
{
    let s2 = ds.push(d);
    if ds.len() == 0 {
        assert(s2.first() == d);
        assert(s2.drop_first() =~= Seq::<TunnelModel>::empty());
        assert(enc_records(s2) == enc_record(d) + enc_records(s2.drop_first()));
        assert(enc_record(d) + Seq::<char>::empty() =~= enc_record(d));
        assert(enc_records(ds) + enc_record(d) =~= enc_record(d));
    } else {
        assert(s2.first() == ds.first());
        assert(s2.drop_first() =~= ds.drop_first().push(d));
        lemma_enc_records_push(ds.drop_first(), d);
        seq_assoc(enc_record(ds.first()), enc_records(ds.drop_first()), enc_record(d));
    }
}

/// Encode a whole store from the definitions it holds, in order.
pub fn encode_store(defs: &Vec<TunnelDefinition>) -> (out: Vec<char>)
    ensures
        out@ == enc_store(defs@.map_values(|d: TunnelDefinition| d@)),
{
    let ghost models = defs@.map_values(|d: TunnelDefinition| d@);
    let mut out: Vec<char> = Vec::new();
    write_num(&mut out, defs.len() as u64, '\n');
    let mut i: usize = 0;
    while i < defs.len()
        invariant
            0 <= i <= defs@.len(),
            models == defs@.map_values(|d: TunnelDefinition| d@),
            models.len() == defs@.len(),
            out@ == enc_num(models.len(), '\n') + enc_records(models.subrange(0, i as int)),
        decreases defs@.len() - i,
    {
        write_record(&mut out, &defs[i]);
        proof {
            lemma_enc_records_push(models.subrange(0, i as int), models[i as int]);
            assert(models.subrange(0, i + 1 as int) =~= models.subrange(0, i as int).push(
                models[i as int],
            ));
        }
        i = i + 1;
    }
    proof {
        assert(models.subrange(0, models.len() as int) =~= models);
    }
    out
}

proof fn lemma_enc_pretty_records_push(ds: Seq<TunnelModel>, d: TunnelModel)
    ensures
        enc_pretty_records(ds.push(d)) == enc_pretty_records(ds) + (seq![' ', ' '] + enc_record(
            d,
        )),
    decreases ds.len(),
{
    let s2 = ds.push(d);
    let pad = seq![' ', ' '];
    if ds.len() == 0 {
        assert(s2.first() == d);
        assert(s2.drop_first() =~= Seq::<TunnelModel>::empty());
        assert(enc_pretty_records(s2) == pad + (enc_record(d) + enc_pretty_records(
            s2.drop_first(),
        )));
        assert(enc_record(d) + Seq::<char>::empty() =~= enc_record(d));
        assert(enc_pretty_records(ds) + (pad + enc_record(d)) =~= pad + enc_record(d));
    } else {
        assert(s2.first() == ds.first());
        assert(s2.drop_first() =~= ds.drop_first().push(d));
        lemma_enc_pretty_records_push(ds.drop_first(), d);
        let tail = pad + enc_record(d);
        let f = enc_record(ds.first());
        let r = enc_pretty_records(ds.drop_first());
        seq_assoc(f, r, tail);
        seq_assoc(pad, f + r, tail);
        seq_assoc(pad, f, r);
    }
}

/// Encode an export from the definitions it holds, in order: one
/// indented line per record.
pub fn export_store(defs: &Vec<TunnelDefinition>) -> (out: Vec<char>)
    ensures
        out@ == enc_pretty_store(defs@.map_values(|d: TunnelDefinition| d@)),
{
    let ghost models = defs@.map_values(|d: TunnelDefinition| d@);
    let mut out: Vec<char> = Vec::new();
    write_num(&mut out, defs.len() as u64, '\n');
    let mut i: usize = 0;
    while i < defs.len()
        invariant
            0 <= i <= defs@.len(),
            models == defs@.map_values(|d: TunnelDefinition| d@),
            models.len() == defs@.len(),
            out@ == enc_num(models.len(), '\n') + enc_pretty_records(models.subrange(0, i as int)),
        decreases defs@.len() - i,
    {
        let ghost out0 = out@;
        out.push(' ');
        out.push(' ');
        write_record(&mut out, &defs[i]);
        proof {
            assert(out@ =~= out0 + (seq![' ', ' '] + enc_record(models[i as int])));
            lemma_enc_pretty_records_push(models.subrange(0, i as int), models[i as int]);
            seq_assoc(
                enc_num(models.len(), '\n'),
                enc_pretty_records(models.subrange(0, i as int)),
                seq![' ', ' '] + enc_record(models[i as int]),
            );
            assert(models.subrange(0, i + 1 as int) =~= models.subrange(0, i as int).push(
                models[i as int],
            ));
        }
        i = i + 1;
    }
    proof {
        assert(models.subrange(0, models.len() as int) =~= models);
    }
    out
}

// ---------------------------------------------------------------------
// Spec-level parsing
// ---------------------------------------------------------------------

/// The first position at or after `i` that does not hold a decimal digit.
pub open spec fn digits_end(s: Seq<char>, i: int) -> int
    decreases s.len() - i,
{
    if 0 <= i < s.len() && is_dec_digit(s[i]) {
        digits_end(s, i + 1)
    } else {
        i
    }
}

/// The value of the decimal digits `s[i..end]`.
pub open spec fn digits_value(s: Seq<char>, i: int, end: int) -> nat
    decreases end - i,
{
    if i >= end {
        0
    } else {
        digits_value(s, i, end - 1) * 10 + digit_value(s[end - 1])
    }
}

/// Parse a number: one or more digits whose value fits `u64`, then the
/// terminator. Returns the value and the position after the terminator.
pub open spec fn parse_num(s: Seq<char>, i: int, term: char) -> Option<(u64, int)> {
    let e = digits_end(s, i);
    if e == i {
        None
    } else if digits_value(s, i, e) > u64::MAX {
        None
    } else if e < s.len() && s[e] == term {
        Some((digits_value(s, i, e) as u64, e + 1))
    } else {
        None
    }
}

/// Parse a string: its character count, `':'`, then that many characters.
pub open spec fn parse_text(s: Seq<char>, i: int) -> Option<(Seq<char>, int)> {
    match parse_num(s, i, ':') {
        None => None,
        Some((n, j)) => if j + n <= s.len() {
            Some((s.subrange(j, j + n), j + n))
        } else {
            None
        },
    }
}

/// Parse a boolean slot; an absent slot (`'-'`) yields `default`.
pub open spec fn parse_flag(s: Seq<char>, i: int, default: bool) -> Option<(bool, int)> {
    if i < 0 || i >= s.len() {
        None
    } else if s[i] == '-' {
        Some((default, i + 1))
    } else if s[i] == '+' {
        if i + 1 < s.len() && (s[i + 1] == 't' || s[i + 1] == 'f') {
            Some((s[i + 1] == 't', i + 2))
        } else {
            None
        }
    } else {
        None
    }
}

/// Parse an optional-string slot; an absent slot yields `None`.
pub open spec fn parse_opt_text(s: Seq<char>, i: int) -> Option<(Option<Seq<char>>, int)> {
    if i < 0 || i >= s.len() {
        None
    } else if s[i] == '-' {
        Some((None, i + 1))
    } else if s[i] == '+' {
        match parse_text(s, i + 1) {
            None => None,
            Some((t, j)) => Some((Some(t), j)),
        }
    } else {
        None
    }
}

/// Parse a timeout slot; an absent slot yields the default of 30.
pub open spec fn parse_timeout(s: Seq<char>, i: int) -> Option<(u64, int)> {
    if i < 0 || i >= s.len() {
        None
    } else if s[i] == '-' {
        Some((30, i + 1))
    } else if s[i] == '+' {
        parse_num(s, i + 1, ';')
    } else {
        None
    }
}

/// Parse one record. A record with a port over `u16::MAX` or a timeout of
/// zero is malformed. The key/password fields reconstruct the credential:
/// `use_key_auth` selects the variant and the other field is ignored.
pub open spec fn parse_record(s: Seq<char>, i: int) -> Option<(TunnelModel, int)> {
    match parse_num(s, i, ';') {
        None => None,
        Some((id, j1)) => match parse_text(s, j1) {
            None => None,
            Some((name, j2)) => match parse_text(s, j2) {
                None => None,
                Some((username, j3)) => match parse_text(s, j3) {
                    None => None,
                    Some((hostname, j4)) => match parse_num(s, j4, ';') {
                        None => None,
                        Some((lp, j5)) => if lp > u16::MAX as u64 {
                            None
                        } else {
                            match parse_num(s, j5, ';') {
                                None => None,
                                Some((rp, j6)) => if rp > u16::MAX as u64 {
                                    None
                                } else {
                                    match parse_flag(s, j6, false) {
                                        None => None,
                                        Some((uka, j7)) => match parse_opt_text(s, j7) {
                                            None => None,
                                            Some((key, j8)) => match parse_timeout(s, j8) {
                                                None => None,
                                                Some((tmo, j9)) => if tmo == 0 {
                                                    None
                                                } else {
                                                    match parse_flag(s, j9, false) {
                                                        None => None,
                                                        Some((auto, j10)) => match parse_opt_text(
                                                            s,
                                                            j10,
                                                        ) {
                                                            None => None,
                                                            Some((spw, j11)) => if j11 < s.len()
                                                                && s[j11] == '\n' {
                                                                Some(
                                                                    (
                                                                        TunnelModel {
                                                                            id,
                                                                            name,
                                                                            username,
                                                                            hostname,
                                                                            local_port: lp as u16,
                                                                            remote_port: rp as u16,
                                                                            credential: if uka {
                                                                                CredentialModel::KeyAuth {
                                                                                    key_path: key,
                                                                                }
                                                                            } else {
                                                                                CredentialModel::PasswordAuth {
                                                                                    saved_password:
                                                                                        spw,
                                                                                }
                                                                            },
                                                                            timeout_seconds: tmo,
                                                                            auto_connect: auto,
                                                                        },
                                                                        j11 + 1,
                                                                    ),
                                                                )
                                                            } else {
                                                                None
                                                            },
                                                        },
                                                    }
                                                },
                                            },
                                        },
                                    }
                                },
                            }
                        },
                    },
                },
            },
        },
    }
}

/// The first position at or after `i` that does not hold a space.
pub open spec fn skip_spaces(s: Seq<char>, i: int) -> int
    decreases s.len() - i,
{
    if 0 <= i < s.len() && s[i] == ' ' {
        skip_spaces(s, i + 1)
    } else {
        i
    }
}

/// Parse exactly `k` records starting at `i`. A record may be indented
/// with spaces, so the compact store and the indented export read alike.
pub open spec fn parse_records(s: Seq<char>, i: int, k: nat) -> Option<(Seq<TunnelModel>, int)>
    decreases k,
{
    if k == 0 {
        Some((Seq::empty(), i))
    } else {
        match parse_record(s, skip_spaces(s, i)) {
            None => None,
            Some((d, j)) => match parse_records(s, j, (k - 1) as nat) {
                None => None,
                Some((ds, e)) => Some((seq![d] + ds, e)),
            },
        }
    }
}

/// Parse a whole store: the record count, then that many records, with
/// nothing left over.
pub open spec fn parse_store(s: Seq<char>) -> Option<Seq<TunnelModel>> {
    match parse_num(s, 0, '\n') {
        None => None,
        Some((k, j)) => match parse_records(s, j, k as nat) {
            None => None,
            Some((ds, e)) => if e == s.len() {
                Some(ds)
            } else {
                None
            },
        },
    }
}

// ---------------------------------------------------------------------
// Executable parsing
// ---------------------------------------------------------------------

/// Relies on `String::from_iter` (through `Iterator::collect`): collecting
/// characters yields the string of exactly those characters, in order.
#[verifier::external_body]
fn chars_to_string(cs: &Vec<char>) -> (r: String)
    ensures
        r@ == cs@,
{
    cs.iter().collect()
}

fn is_digit_char(c: char) -> (r: bool)
    ensures
        r == is_dec_digit(c),
{
    let u = c as u32;
    48 <= u && u <= 57
}

fn digit_char_value(c: char) -> (d: u64)
    requires
        is_dec_digit(c),
    ensures
        d as nat == digit_value(c),
{
    (c as u32 - 48) as u64
}

proof fn lemma_digits_end_ge(s: Seq<char>, i: int)
    requires
        0 <= i <= s.len(),
    ensures
        i <= digits_end(s, i) <= s.len(),
    decreases s.len() - i,
{
    if i < s.len() && is_dec_digit(s[i]) {
        lemma_digits_end_ge(s, i + 1);
    }
}

proof fn lemma_digits_value_mono(s: Seq<char>, i: int, j: int, e: int)
    requires
        i <= j <= e,
    ensures
        digits_value(s, i, j) <= digits_value(s, i, e),
    decreases e - j,
{
    if j < e {
        lemma_digits_value_mono(s, i, j, e - 1);
    }
}

fn read_num(s: &Vec<char>, i: usize, term: char) -> (r: Option<(u64, usize)>)
    requires
        i <= s@.len(),
    ensures
        match r {
            Some(v) => parse_num(s@, i as int, term) == Some::<(u64, int)>((v.0, v.1 as int)) && i
                < v.1 <= s@.len(),
            None => parse_num(s@, i as int, term) is None,
        },
{
    let mut j: usize = i;
    let mut acc: u64 = 0;
    while j < s.len() && is_digit_char(s[j])
        invariant
            i <= j <= s@.len(),
            digits_end(s@, i as int) == digits_end(s@, j as int),
            acc as nat == digits_value(s@, i as int, j as int),
        decreases s@.len() - j,
    {
        let d = digit_char_value(s[j]);
        proof {
            assert(digits_end(s@, j as int) == digits_end(s@, j + 1 as int));
            lemma_digits_end_ge(s@, j + 1 as int);
        }
        let m = match acc.checked_mul(10) {
            Some(m) => m,
            None => {
                proof {
                    lemma_digits_value_mono(s@, i as int, j + 1 as int, digits_end(s@, i as int));
                    assert(digits_value(s@, i as int, j + 1 as int) == (acc as nat) * 10
                        + digit_value(s@[j as int]));
                }
                return None;
            },
        };
        let m2 = match m.checked_add(d) {
            Some(m2) => m2,
            None => {
                proof {
                    lemma_digits_value_mono(s@, i as int, j + 1 as int, digits_end(s@, i as int));
                    assert(digits_value(s@, i as int, j + 1 as int) == (acc as nat) * 10
                        + digit_value(s@[j as int]));
                }
                return None;
            },
        };
        proof {
            assert(digits_value(s@, i as int, j + 1 as int) == (acc as nat) * 10 + digit_value(
                s@[j as int],
            ));
        }
        acc = m2;
        j = j + 1;
    }
    assert(digits_end(s@, j as int) == j);
    if j == i {
        return None;
    }
    if j < s.len() {
        if s[j] == term {
            return Some((acc, j + 1));
        }
    }
    None
}

fn read_text(s: &Vec<char>, i: usize) -> (r: Option<(String, usize)>)
    requires
        i <= s@.len(),
    ensures
        match r {
            Some(v) => parse_text(s@, i as int) == Some::<(Seq<char>, int)>((v.0@, v.1 as int))
                && i < v.1 <= s@.len(),
            None => parse_text(s@, i as int) is None,
        },
{
    match read_num(s, i, ':') {
        None => None,
        Some((n, j)) => {
            if n > (s.len() - j) as u64 {
                None
            } else {
                let ln = n as usize;
                let slen = s.len();
                let mut buf: Vec<char> = Vec::new();
                let mut k: usize = 0;
                while k < ln
                    invariant
                        slen == s@.len(),
                        j + ln <= slen,
                        0 <= k <= ln,
                        buf@ == s@.subrange(j as int, j + k as int),
                    decreases ln - k,
                {
                    buf.push(s[j + k]);
                    proof {
                        assert(s@.subrange(j as int, j + k + 1 as int) =~= s@.subrange(
                            j as int,
                            j + k as int,
                        ).push(s@[j + k as int]));
                    }
                    k = k + 1;
                }
                let text = chars_to_string(&buf);
                Some((text, j + ln))
            }
        },
    }
}

fn read_flag(s: &Vec<char>, i: usize, default: bool) -> (r: Option<(bool, usize)>)
    requires
        i <= s@.len(),
    ensures
        match r {
            Some(v) => parse_flag(s@, i as int, default) == Some::<(bool, int)>((v.0, v.1 as int))
                && i < v.1 <= s@.len(),
            None => parse_flag(s@, i as int, default) is None,
        },
{
    if i == s.len() {
        return None;
    }
    let c = s[i];
    if c == '-' {
        return Some((default, i + 1));
    }
    if c == '+' {
        if i + 1 < s.len() {
            let c2 = s[i + 1];
            if c2 == 't' {
                return Some((true, i + 2));
            }
            if c2 == 'f' {
                return Some((false, i + 2));
            }
        }
        return None;
    }
    None
}

fn read_opt_text(s: &Vec<char>, i: usize) -> (r: Option<(Option<String>, usize)>)
    requires
        i <= s@.len(),
    ensures
        match r {
            Some(v) => parse_opt_text(s@, i as int) == Some::<(Option<Seq<char>>, int)>(
                (
                    match v.0 {
                        Some(t) => Some(t@),
                        None => None,
                    },
                    v.1 as int,
                ),
            ) && i < v.1 <= s@.len(),
            None => parse_opt_text(s@, i as int) is None,
        },
{
    if i == s.len() {
        return None;
    }
    let c = s[i];
    if c == '-' {
        return Some((None, i + 1));
    }
    if c == '+' {
        return match read_text(s, i + 1) {
            None => None,
            Some((t, j)) => Some((Some(t), j)),
        };
    }
    None
}

fn read_timeout(s: &Vec<char>, i: usize) -> (r: Option<(u64, usize)>)
    requires
        i <= s@.len(),
    ensures
        match r {
            Some(v) => parse_timeout(s@, i as int) == Some::<(u64, int)>((v.0, v.1 as int)) && i
                < v.1 <= s@.len(),
            None => parse_timeout(s@, i as int) is None,
        },
{
    if i == s.len() {
        return None;
    }
    let c = s[i];
    if c == '-' {
        return Some((30, i + 1));
    }
    if c == '+' {
        return read_num(s, i + 1, ';');
    }
    None
}

fn skip_spaces_from(s: &Vec<char>, i: usize) -> (r: usize)
    requires
        i <= s@.len(),
    ensures
        r as int == skip_spaces(s@, i as int),
        i <= r <= s@.len(),
{
    let mut j: usize = i;
    while j < s.len() && s[j] == ' '
        invariant
            i <= j <= s@.len(),
            skip_spaces(s@, i as int) == skip_spaces(s@, j as int),
        decreases s@.len() - j,
    {
        j = j + 1;
    }
    assert(skip_spaces(s@, j as int) == j);
    j
}

fn read_record(s: &Vec<char>, i: usize) -> (r: Option<(TunnelDefinition, usize)>)
    requires
        i <= s@.len(),
    ensures
        match r {
            Some(v) => parse_record(s@, i as int) == Some::<(TunnelModel, int)>(
                (v.0@, v.1 as int),
            ) && i < v.1 <= s@.len(),
            None => parse_record(s@, i as int) is None,
        },
{
    let (id, j1) = match read_num(s, i, ';') {
        Some(v) => v,
        None => {
            return None;
        },
    };
    let (name, j2) = match read_text(s, j1) {
        Some(v) => v,
        None => {
            return None;
        },
    };
    let (username, j3) = match read_text(s, j2) {
        Some(v) => v,
        None => {
            return None;
        },
    };
    let (hostname, j4) = match read_text(s, j3) {
        Some(v) => v,
        None => {
            return None;
        },
    };
    let (lp, j5) = match read_num(s, j4, ';') {
        Some(v) => v,
        None => {
            return None;
        },
    };
    if lp > 0xffff {
        return None;
    }
    let (rp, j6) = match read_num(s, j5, ';') {
        Some(v) => v,
        None => {
            return None;
        },
    };
    if rp > 0xffff {
        return None;
    }
    let (uka, j7) = match read_flag(s, j6, false) {
        Some(v) => v,
        None => {
            return None;
        },
    };
    let (key, j8) = match read_opt_text(s, j7) {
        Some(v) => v,
        None => {
            return None;
        },
    };
    let (tmo, j9) = match read_timeout(s, j8) {
        Some(v) => v,
        None => {
            return None;
        },
    };
    if tmo == 0 {
        return None;
    }
    let (auto, j10) = match read_flag(s, j9, false) {
        Some(v) => v,
        None => {
            return None;
        },
    };
    let (spw, j11) = match read_opt_text(s, j10) {
        Some(v) => v,
        None => {
            return None;
        },
    };
    if j11 == s.len() {
        return None;
    }
    if s[j11] != '\n' {
        return None;
    }
    let credential = if uka {
        AuthCredential::KeyAuth { key_path: key }
    } else {
        AuthCredential::PasswordAuth { saved_password: spw }
    };
    let def = TunnelDefinition {
        id,
        name,
        username,
        hostname,
        local_port: lp as u16,
        remote_port: rp as u16,
        credential,
        timeout_seconds: tmo,
        auto_connect: auto,
    };
    let j12 = j11 + 1;
    proof {
        let parsed = parse_record(s@, i as int);
        assert(parsed is Some);
        assert(def@ =~= parsed.unwrap().0);
    }
    Some((def, j12))
}

// ---------------------------------------------------------------------
// Bounds on what a successful parse returns
// ---------------------------------------------------------------------

proof fn lemma_parse_num_props(s: Seq<char>, i: int, term: char)
    requires
        0 <= i <= s.len(),
    ensures
        match parse_num(s, i, term) {
            Some(v) => i < v.1 <= s.len(),
            None => true,
        },
{
    lemma_digits_end_ge(s, i);
}

proof fn lemma_parse_text_props(s: Seq<char>, i: int)
    requires
        0 <= i <= s.len(),
    ensures
        match parse_text(s, i) {
            Some(v) => i < v.1 <= s.len() && v.0.len() <= s.len(),
            None => true,
        },
{
    lemma_parse_num_props(s, i, ':');
}

proof fn lemma_parse_opt_text_props(s: Seq<char>, i: int)
    requires
        0 <= i <= s.len(),
    ensures
        match parse_opt_text(s, i) {
            Some(v) => i < v.1 <= s.len() && (match v.0 {
                Some(t) => t.len() <= s.len(),
                None => true,
            }),
            None => true,
        },
{
    if 0 <= i < s.len() && s[i] == '+' {
        lemma_parse_text_props(s, i + 1);
    }
}

proof fn lemma_parse_record_props(s: Seq<char>, i: int)
    requires
        0 <= i <= s.len(),
    ensures
        match parse_record(s, i) {
            Some(v) => i < v.1 <= s.len() && v.0.wf() && v.0.name.len() <= s.len()
                && v.0.username.len() <= s.len() && v.0.hostname.len() <= s.len() && (match
            key_path_of(v.0.credential) {
                Some(t) => t.len() <= s.len(),
                None => true,
            }) && (match saved_password_of(v.0.credential) {
                Some(t) => t.len() <= s.len(),
                None => true,
            }),
            None => true,
        },
{
    lemma_parse_num_props(s, i, ';');
    match parse_num(s, i, ';') {
        None => {},
        Some((id, j1)) => {
            lemma_parse_text_props(s, j1);
            match parse_text(s, j1) {
                None => {},
                Some((name, j2)) => {
                    lemma_parse_text_props(s, j2);
                    match parse_text(s, j2) {
                        None => {},
                        Some((username, j3)) => {
                            lemma_parse_text_props(s, j3);
                            match parse_text(s, j3) {
                                None => {},
                                Some((hostname, j4)) => {
                                    lemma_parse_num_props(s, j4, ';');
                                    match parse_num(s, j4, ';') {
                                        None => {},
                                        Some((lp, j5)) => {
                                            lemma_parse_num_props(s, j5, ';');
                                            match parse_num(s, j5, ';') {
                                                None => {},
                                                Some((rp, j6)) => {
                                                    match parse_flag(s, j6, false) {
                                                        None => {},
                                                        Some((uka, j7)) => {
                                                            lemma_parse_opt_text_props(s, j7);
                                                            match parse_opt_text(s, j7) {
                                                                None => {},
                                                                Some((key, j8)) => {
                                                                    if j8 < s.len() && s[j8]
                                                                        == '+' {
                                                                        lemma_parse_num_props(
                                                                            s,
                                                                            j8 + 1,
                                                                            ';',
                                                                        );
                                                                    }
                                                                    match parse_timeout(s, j8) {
                                                                        None => {},
                                                                        Some((tmo, j9)) => {
                                                                            match parse_flag(
                                                                                s,
                                                                                j9,
                                                                                false,
                                                                            ) {
                                                                                None => {},
                                                                                Some(
                                                                                    (auto, j10),
                                                                                ) => {
                                                                                    lemma_parse_opt_text_props(
                                                                                        s,
                                                                                        j10,
                                                                                    );
                                                                                },
                                                                            }
                                                                        },
                                                                    }
                                                                },
                                                            }
                                                        },
                                                    }
                                                },
                                            }
                                        },
                                    }
                                },
                            }
                        },
                    }
                },
            }
        },
    }
}

// ---------------------------------------------------------------------
// Decoding a whole store
// ---------------------------------------------------------------------

/// What the rest of a record run parses to, prefixed with what was
/// already parsed.
spec fn records_from(s: Seq<char>, i: int, k: nat, prefix: Seq<TunnelModel>) -> Option<
    (Seq<TunnelModel>, int),
> {
    match parse_records(s, i, k) {
        None => None,
        Some((ds, e)) => Some((prefix + ds, e)),
    }
}

proof fn lemma_records_from_step(
    s: Seq<char>,
    i: int,
    k: nat,
    prefix: Seq<TunnelModel>,
    d: TunnelModel,
    j: int,
)
    requires
        k > 0,
        parse_record(s, skip_spaces(s, i)) == Some((d, j)),
    ensures
        records_from(s, i, k, prefix) == records_from(s, j, (k - 1) as nat, prefix.push(d)),
{
    match parse_records(s, j, (k - 1) as nat) {
        None => {},
        Some((ds, e)) => {
            assert(prefix + (seq![d] + ds) =~= prefix.push(d) + ds);
        },
    }
}

/// Decode a whole store. Returns the definitions exactly when the text is
/// a well-formed store, in the order they appear.
pub fn decode_store(s: &Vec<char>) -> (r: Option<Vec<TunnelDefinition>>)
    ensures
        match r {
            Some(v) => parse_store(s@) == Some(v@.map_values(|d: TunnelDefinition| d@)) && forall|
                t: int,
            | 0 <= t < v@.len() ==> (#[trigger] v@[t])@.wf() && v@[t]@.bounded(),
            None => parse_store(s@) is None,
        },
{
    let slen = s.len();
    let (k, start) = match read_num(s, 0, '\n') {
        Some(v) => v,
        None => {
            return None;
        },
    };
    let mut out: Vec<TunnelDefinition> = Vec::new();
    let mut cur: usize = start;
    let mut t: u64 = 0;
    while t < k
        invariant
            slen == s@.len(),
            cur <= slen,
            t <= k,
            out@.len() == t,
            parse_num(s@, 0, '\n') == Some::<(u64, int)>((k, start as int)),
            records_from(s@, cur as int, (k - t) as nat, out@.map_values(|d: TunnelDefinition| d@))
                == parse_records(s@, start as int, k as nat),
            forall|q: int|
                0 <= q < out@.len() ==> (#[trigger] out@[q])@.wf() && out@[q]@.bounded(),
        decreases k - t,
    {
        let cur2 = skip_spaces_from(s, cur);
        let (d, j2) = match read_record(s, cur2) {
            Some(v) => v,
            None => {
                proof {
                    let rem = (k - t) as nat;
                    assert(parse_records(s@, cur as int, rem) is None);
                    assert(records_from(
                        s@,
                        cur as int,
                        rem,
                        out@.map_values(|dd: TunnelDefinition| dd@),
                    ) is None);
                    assert(parse_records(s@, start as int, k as nat) is None);
                    assert(parse_num(s@, 0, '\n') == Some::<(u64, int)>((k, start as int)));
                    assert(parse_store(s@) is None);
                }
                return None;
            },
        };
        proof {
            let prefix = out@.map_values(|dd: TunnelDefinition| dd@);
            lemma_records_from_step(s@, cur as int, (k - t) as nat, prefix, d@, j2 as int);
            lemma_parse_record_props(s@, cur2 as int);
            assert(out@.push(d).map_values(|dd: TunnelDefinition| dd@) =~= prefix.push(d@));
        }
        out.push(d);
        cur = j2;
        t = t + 1;
    }
    if cur != slen {
        return None;
    }
    proof {
        let prefix = out@.map_values(|dd: TunnelDefinition| dd@);
        assert(prefix + Seq::<TunnelModel>::empty() =~= prefix);
    }
    Some(out)
}

// ---------------------------------------------------------------------
// Parsing inverts encoding
// ---------------------------------------------------------------------

proof fn lemma_window_split(s: Seq<char>, i: int, a: Seq<char>, b: Seq<char>)
    requires
        0 <= i,
        i + a.len() + b.len() <= s.len(),
        s.subrange(i, i + a.len() + b.len()) == a + b,
    ensures
        s.subrange(i, i + a.len()) == a,
        s.subrange(i + a.len(), i + a.len() + b.len()) == b,
{
    let w = s.subrange(i, i + a.len() + b.len());
    assert forall|q: int| 0 <= q < a.len() implies s.subrange(i, i + a.len())[q] == a[q] by {
        assert(w[q] == a[q]);
    }
    assert(s.subrange(i, i + a.len()) =~= a);
    assert forall|q: int|
        0 <= q < b.len() implies s.subrange(i + a.len(), i + a.len() + b.len())[q] == b[q] by {
        assert(w[a.len() + q] == b[q]);
    }
    assert(s.subrange(i + a.len(), i + a.len() + b.len()) =~= b);
}

proof fn lemma_enc_nat_props(n: nat)
    ensures
        enc_nat(n).len() >= 1,
        forall|q: int| 0 <= q < enc_nat(n).len() ==> is_dec_digit(#[trigger] enc_nat(n)[q]),
    decreases n,
{
    if n < 10 {
        lemma_digit_char(n);
    } else {
        lemma_enc_nat_props(n / 10);
        lemma_digit_char(n % 10);
        assert forall|q: int|
            0 <= q < enc_nat(n).len() implies is_dec_digit(#[trigger] enc_nat(n)[q]) by {
            if q < enc_nat(n / 10).len() {
                assert(enc_nat(n)[q] == enc_nat(n / 10)[q]);
            } else {
                assert(enc_nat(n)[q] == digit_char(n % 10));
            }
        }
    }
}

proof fn lemma_digits_end_from_window(s: Seq<char>, i: int, e: int)
    requires
        0 <= i <= e <= s.len(),
        forall|q: int| i <= q < e ==> is_dec_digit(#[trigger] s[q]),
        e == s.len() || !is_dec_digit(s[e]),
    ensures
        digits_end(s, i) == e,
    decreases e - i,
{
    if i < e {
        lemma_digits_end_from_window(s, i + 1, e);
    }
}

proof fn lemma_digits_value_of_enc(s: Seq<char>, i: int, n: nat)
    requires
        0 <= i,
        i + enc_nat(n).len() <= s.len(),
        s.subrange(i, i + enc_nat(n).len()) == enc_nat(n),
    ensures
        digits_value(s, i, i + enc_nat(n).len()) == n,
    decreases n,
{
    if n < 10 {
        assert(s[i] == s.subrange(i, i + 1)[0]);
        lemma_digit_char(n);
        assert(digits_value(s, i, i + 1) == digits_value(s, i, i) * 10 + digit_value(s[i]));
    } else {
        let hi = enc_nat(n / 10);
        let lo = seq![digit_char(n % 10)];
        lemma_window_split(s, i, hi, lo);
        lemma_digits_value_of_enc(s, i, n / 10);
        lemma_digit_char(n % 10);
        let e = i + hi.len();
        assert(s[e] == s.subrange(e, e + 1)[0]);
        assert(digits_value(s, i, e + 1) == digits_value(s, i, e) * 10 + digit_value(s[e]));
        lemma_fundamental_div_mod(n as int, 10);
    }
}

proof fn lemma_parse_num_of_enc(s: Seq<char>, i: int, n: nat, term: char)
    requires
        n <= u64::MAX,
        !is_dec_digit(term),
        0 <= i,
        i + enc_num(n, term).len() <= s.len(),
        s.subrange(i, i + enc_num(n, term).len()) == enc_num(n, term),
    ensures
        parse_num(s, i, term) == Some::<(u64, int)>(
            ((n as u64), i + enc_num(n, term).len() as int),
        ),
{
    let w = enc_nat(n);
    lemma_enc_nat_props(n);
    lemma_window_split(s, i, w, seq![term]);
    let e = i + w.len();
    assert(s[e] == s.subrange(e, e + 1)[0]);
    assert(s[e] == term);
    assert forall|q: int| i <= q < e implies is_dec_digit(#[trigger] s[q]) by {
        assert(s[q] == s.subrange(i, e)[q - i]);
    }
    lemma_digits_end_from_window(s, i, e);
    lemma_digits_value_of_enc(s, i, n);
}

proof fn lemma_parse_text_of_enc(s: Seq<char>, i: int, t: Seq<char>)
    requires
        t.len() <= u64::MAX,
        0 <= i,
        i + enc_text(t).len() <= s.len(),
        s.subrange(i, i + enc_text(t).len()) == enc_text(t),
    ensures
        parse_text(s, i) == Some::<(Seq<char>, int)>((t, i + enc_text(t).len() as int)),
{
    let pn = enc_num(t.len(), ':');
    lemma_window_split(s, i, pn, t);
    lemma_parse_num_of_enc(s, i, t.len(), ':');
}

proof fn lemma_parse_flag_of_enc(s: Seq<char>, i: int, b: bool, default: bool)
    requires
        0 <= i,
        i + 2 <= s.len(),
        s.subrange(i, i + 2) == enc_flag(b),
    ensures
        parse_flag(s, i, default) == Some::<(bool, int)>((b, i + 2)),
{
    assert(s[i] == s.subrange(i, i + 2)[0]);
    assert(s[i + 1] == s.subrange(i, i + 2)[1]);
}

proof fn lemma_parse_opt_text_of_enc(s: Seq<char>, i: int, o: Option<Seq<char>>)
    requires
        match o {
            Some(t) => t.len() <= u64::MAX,
            None => true,
        },
        0 <= i,
        i + enc_opt_text(o).len() <= s.len(),
        s.subrange(i, i + enc_opt_text(o).len()) == enc_opt_text(o),
    ensures
        parse_opt_text(s, i) == Some::<(Option<Seq<char>>, int)>(
            (o, i + enc_opt_text(o).len() as int),
        ),
{
    match o {
        None => {
            assert(s[i] == s.subrange(i, i + 1)[0]);
        },
        Some(t) => {
            lemma_window_split(s, i, seq!['+'], enc_text(t));
            assert(s[i] == s.subrange(i, i + 1)[0]);
            lemma_parse_text_of_enc(s, i + 1, t);
        },
    }
}

proof fn lemma_parse_timeout_of_enc(s: Seq<char>, i: int, n: nat)
    requires
        n <= u64::MAX,
        0 <= i,
        i + enc_timeout(n).len() <= s.len(),
        s.subrange(i, i + enc_timeout(n).len()) == enc_timeout(n),
    ensures
        parse_timeout(s, i) == Some::<(u64, int)>(((n as u64), i + enc_timeout(n).len() as int)),
{
    lemma_window_split(s, i, seq!['+'], enc_num(n, ';'));
    assert(s[i] == s.subrange(i, i + 1)[0]);
    lemma_parse_num_of_enc(s, i + 1, n, ';');
}

#[verifier::rlimit(100)]
proof fn lemma_parse_record_of_enc(s: Seq<char>, i: int, d: TunnelModel)
    requires
        d.wf(),
        d.bounded(),
        0 <= i,
        i + enc_record(d).len() <= s.len(),
        s.subrange(i, i + enc_record(d).len()) == enc_record(d),
    ensures
        parse_record(s, i) == Some::<(TunnelModel, int)>((d, i + enc_record(d).len() as int)),
{
    let p1 = enc_num(d.id as nat, ';');
    let p2 = enc_text(d.name);
    let p3 = enc_text(d.username);
    let p4 = enc_text(d.hostname);
    let p5 = enc_num(d.local_port as nat, ';');
    let p6 = enc_num(d.remote_port as nat, ';');
    let p7 = enc_flag(is_key_auth(d.credential));
    let p8 = enc_opt_text(key_path_of(d.credential));
    let p9 = enc_timeout(d.timeout_seconds as nat);
    let p10 = enc_flag(d.auto_connect);
    let p11 = enc_opt_text(saved_password_of(d.credential));
    let p12 = seq!['\n'];
    let r11 = p11 + p12;
    let r10 = p10 + r11;
    let r9 = p9 + r10;
    let r8 = p8 + r9;
    let r7 = p7 + r8;
    let r6 = p6 + r7;
    let r5 = p5 + r6;
    let r4 = p4 + r5;
    let r3 = p3 + r4;
    let r2 = p2 + r3;
    assert(enc_record(d) == p1 + r2);
    let i1 = i + p1.len();
    let i2 = i1 + p2.len();
    let i3 = i2 + p3.len();
    let i4 = i3 + p4.len();
    let i5 = i4 + p5.len();
    let i6 = i5 + p6.len();
    let i7 = i6 + p7.len();
    let i8 = i7 + p8.len();
    let i9 = i8 + p9.len();
    let i10 = i9 + p10.len();
    let i11 = i10 + p11.len();
    let i12 = i11 + 1;
    lemma_window_split(s, i, p1, r2);
    lemma_window_split(s, i1, p2, r3);
    lemma_window_split(s, i2, p3, r4);
    lemma_window_split(s, i3, p4, r5);
    lemma_window_split(s, i4, p5, r6);
    lemma_window_split(s, i5, p6, r7);
    lemma_window_split(s, i6, p7, r8);
    lemma_window_split(s, i7, p8, r9);
    lemma_window_split(s, i8, p9, r10);
    lemma_window_split(s, i9, p10, r11);
    lemma_window_split(s, i10, p11, p12);
    lemma_parse_num_of_enc(s, i, d.id as nat, ';');
    lemma_parse_text_of_enc(s, i1, d.name);
    lemma_parse_text_of_enc(s, i2, d.username);
    lemma_parse_text_of_enc(s, i3, d.hostname);
    lemma_parse_num_of_enc(s, i4, d.local_port as nat, ';');
    lemma_parse_num_of_enc(s, i5, d.remote_port as nat, ';');
    lemma_parse_flag_of_enc(s, i6, is_key_auth(d.credential), false);
    lemma_parse_opt_text_of_enc(s, i7, key_path_of(d.credential));
    lemma_parse_timeout_of_enc(s, i8, d.timeout_seconds as nat);
    lemma_parse_flag_of_enc(s, i9, d.auto_connect, false);
    lemma_parse_opt_text_of_enc(s, i10, saved_password_of(d.credential));
    assert(s[i11] == s.subrange(i11, i12)[0]);
    assert(s[i11] == '\n');
    match parse_record(s, i) {
        None => {
            assert(false);
        },
        Some((m, e)) => {
            assert(m =~= d);
            assert(e == i + enc_record(d).len());
        },
    }
}

proof fn lemma_record_starts_with_digit(s: Seq<char>, i: int, d: TunnelModel)
    requires
        0 <= i,
        i + enc_record(d).len() <= s.len(),
        s.subrange(i, i + enc_record(d).len()) == enc_record(d),
    ensures
        is_dec_digit(s[i]),
        skip_spaces(s, i) == i,
{
    lemma_enc_nat_props(d.id as nat);
    assert(s[i] == s.subrange(i, i + enc_record(d).len())[0]);
    assert(enc_record(d)[0] == enc_num(d.id as nat, ';')[0]);
    assert(enc_num(d.id as nat, ';')[0] == enc_nat(d.id as nat)[0]);
}

proof fn lemma_parse_records_of_enc(s: Seq<char>, i: int, ds: Seq<TunnelModel>)
    requires
        forall|q: int| 0 <= q < ds.len() ==> (#[trigger] ds[q]).wf() && ds[q].bounded(),
        0 <= i,
        i + enc_records(ds).len() <= s.len(),
        s.subrange(i, i + enc_records(ds).len()) == enc_records(ds),
    ensures
        parse_records(s, i, ds.len()) == Some::<(Seq<TunnelModel>, int)>(
            (ds, i + enc_records(ds).len() as int),
        ),
    decreases ds.len(),
{
    if ds.len() == 0 {
        assert(ds =~= Seq::<TunnelModel>::empty());
    } else {
        let first = ds.first();
        let rest = ds.drop_first();
        assert(first == ds[0]);
        lemma_window_split(s, i, enc_record(first), enc_records(rest));
        lemma_record_starts_with_digit(s, i, first);
        lemma_parse_record_of_enc(s, i, first);
        let i1 = i + enc_record(first).len();
        assert(forall|q: int|
            0 <= q < rest.len() ==> (#[trigger] rest[q]).wf() && rest[q].bounded());
        lemma_parse_records_of_enc(s, i1, rest);
        assert(seq![first] + rest =~= ds);
    }
}

proof fn lemma_parse_pretty_records_of_enc(s: Seq<char>, i: int, ds: Seq<TunnelModel>)
    requires
        forall|q: int| 0 <= q < ds.len() ==> (#[trigger] ds[q]).wf() && ds[q].bounded(),
        0 <= i,
        i + enc_pretty_records(ds).len() <= s.len(),
        s.subrange(i, i + enc_pretty_records(ds).len()) == enc_pretty_records(ds),
    ensures
        parse_records(s, i, ds.len()) == Some::<(Seq<TunnelModel>, int)>(
            (ds, i + enc_pretty_records(ds).len() as int),
        ),
    decreases ds.len(),
{
    if ds.len() == 0 {
        assert(ds =~= Seq::<TunnelModel>::empty());
    } else {
        let first = ds.first();
        let rest = ds.drop_first();
        assert(first == ds[0]);
        let pad = seq![' ', ' '];
        lemma_window_split(s, i, pad, enc_record(first) + enc_pretty_records(rest));
        assert(s[i] == s.subrange(i, i + 2)[0]);
        assert(s[i + 1] == s.subrange(i, i + 2)[1]);
        lemma_window_split(s, i + 2, enc_record(first), enc_pretty_records(rest));
        lemma_record_starts_with_digit(s, i + 2, first);
        assert(skip_spaces(s, i) == skip_spaces(s, i + 1));
        assert(skip_spaces(s, i + 1) == skip_spaces(s, i + 2));
        assert(skip_spaces(s, i) == i + 2);
        lemma_parse_record_of_enc(s, i + 2, first);
        let i1 = i + 2 + enc_record(first).len();
        assert(forall|q: int|
            0 <= q < rest.len() ==> (#[trigger] rest[q]).wf() && rest[q].bounded());
        lemma_parse_pretty_records_of_enc(s, i1, rest);
        assert(seq![first] + rest =~= ds);
    }
}

/// Parsing a store inverts encoding it: any run of well-formed
/// definitions, written out with [`enc_store`], reads back exactly.
pub proof fn lemma_store_round_trip(ds: Seq<TunnelModel>)
    requires
        forall|q: int| 0 <= q < ds.len() ==> (#[trigger] ds[q]).wf() && ds[q].bounded(),
        ds.len() <= u64::MAX,
    ensures
        parse_store(enc_store(ds)) == Some(ds),
{
    let s = enc_store(ds);
    let pn = enc_num(ds.len(), '\n');
    assert(s.subrange(0, s.len() as int) =~= s);
    lemma_window_split(s, 0, pn, enc_records(ds));
    lemma_parse_num_of_enc(s, 0, ds.len(), '\n');
    lemma_parse_records_of_enc(s, pn.len() as int, ds);
}

/// Parsing also inverts the indented export encoding: the operator-facing
/// form written by [`export_store`] reads back exactly as well.
pub proof fn lemma_pretty_store_round_trip(ds: Seq<TunnelModel>)
    requires
        forall|q: int| 0 <= q < ds.len() ==> (#[trigger] ds[q]).wf() && ds[q].bounded(),
        ds.len() <= u64::MAX,
    ensures
        parse_store(enc_pretty_store(ds)) == Some(ds),
{
    let s = enc_pretty_store(ds);
    let pn = enc_num(ds.len(), '\n');
    assert(s.subrange(0, s.len() as int) =~= s);
    lemma_window_split(s, 0, pn, enc_pretty_records(ds));
    lemma_parse_num_of_enc(s, 0, ds.len(), '\n');
    lemma_parse_pretty_records_of_enc(s, pn.len() as int, ds);
}

} // verus!
