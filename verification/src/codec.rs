//! The persisted snapshot format, and its proof of faithfulness.
//!
//! Each store is persisted as one complete, human-readable text snapshot and
//! rewritten wholesale on every mutation.  The format is line-oriented with
//! length-prefixed strings, so any value survives a round trip untouched:
//! a number is its decimal digits followed by a newline, a string is its
//! character count on one line followed by exactly that many characters and
//! a newline.  Decoding a snapshot this module encoded yields the original
//! store field for field; anything else may be rejected, and the caller
//! treats a rejected or absent file as an empty store.

use vstd::prelude::*;
use vstd::arithmetic::div_mod::lemma_fundamental_div_mod;

use crate::auth::{AuthStore, AuthStoreModel, Device, DeviceModel, SetupToken, SetupTokenModel};
use crate::notify::{PushEndpoint, PushEndpointModel};

verus! {

/// The decimal digit character for `d`.
pub open spec fn digit_char(d: int) -> char {
    if d == 0 {
        '0'
    } else if d == 1 {
        '1'
    } else if d == 2 {
        '2'
    } else if d == 3 {
        '3'
    } else if d == 4 {
        '4'
    } else if d == 5 {
        '5'
    } else if d == 6 {
        '6'
    } else if d == 7 {
        '7'
    } else if d == 8 {
        '8'
    } else {
        '9'
    }
}

/// The numeric value of a decimal digit character, or nothing.
pub open spec fn digit_val(c: char) -> Option<int> {
    if c == '0' {
        Some(0int)
    } else if c == '1' {
        Some(1int)
    } else if c == '2' {
        Some(2int)
    } else if c == '3' {
        Some(3int)
    } else if c == '4' {
        Some(4int)
    } else if c == '5' {
        Some(5int)
    } else if c == '6' {
        Some(6int)
    } else if c == '7' {
        Some(7int)
    } else if c == '8' {
        Some(8int)
    } else if c == '9' {
        Some(9int)
    } else {
        None
    }
}

/// The decimal digits of `n`, most significant first.
pub open spec fn dec_digits(n: nat) -> Seq<char>
    decreases n,
{
    if n < 10 {
        seq![digit_char(n as int)]
    } else {
        dec_digits(n / 10) + seq![digit_char((n % 10) as int)]
    }
}

/// A number is encoded as its decimal digits on one line.
pub open spec fn enc_nat(n: nat) -> Seq<char> {
    dec_digits(n) + seq!['\n']
}

/// Every character `dec_digits` prints is a digit, and there is at least one.
proof fn lemma_dec_digits_are_digits(n: nat)
    ensures
        dec_digits(n).len() >= 1,
        forall|k: int|
            0 <= k < dec_digits(n).len() ==> digit_val(#[trigger] dec_digits(n)[k]) is Some,
    decreases n,
{
    if n >= 10 {
        lemma_dec_digits_are_digits(n / 10);
    }
}

/// The value a run of digit characters accumulates onto `acc`, read from
/// the left as `parse_nat` reads them.
pub open spec fn seq_val(acc: nat, ds: Seq<char>) -> nat
    recommends
        forall|k: int| 0 <= k < ds.len() ==> digit_val(#[trigger] ds[k]) is Some,
    decreases ds.len(),
{
    if ds.len() == 0 {
        acc
    } else {
        seq_val((acc * 10 + digit_val(ds[0])->0) as nat, ds.drop_first())
    }
}

/// Accumulating digits never shrinks the value.
pub(crate) proof fn lemma_seq_val_lower_bound(acc: nat, ds: Seq<char>)
    requires
        forall|k: int| 0 <= k < ds.len() ==> digit_val(#[trigger] ds[k]) is Some,
    ensures
        seq_val(acc, ds) >= acc,
    decreases ds.len(),
{
    if ds.len() > 0 {
        let d = digit_val(ds[0])->0;
        assert(0 <= d);
        assert(acc * 10 + d >= acc) by (nonlinear_arith)
            requires
                d >= 0,
        ;
        lemma_seq_val_lower_bound((acc * 10 + d) as nat, ds.drop_first());
    }
}

/// One digit appended on the right multiplies the accumulated value by ten.
pub(crate) proof fn lemma_seq_val_snoc(acc: nat, ds: Seq<char>, c: char)
    requires
        forall|k: int| 0 <= k < ds.len() ==> digit_val(#[trigger] ds[k]) is Some,
        digit_val(c) is Some,
    ensures
        seq_val(acc, ds.push(c)) == seq_val(acc, ds) * 10 + digit_val(c)->0,
    decreases ds.len(),
{
    if ds.len() == 0 {
        assert(ds.push(c)[0] == c);
        assert(ds.push(c).drop_first() =~= Seq::<char>::empty());
        assert(seq_val((acc * 10 + digit_val(c)->0) as nat, Seq::<char>::empty()) == (acc * 10
            + digit_val(c)->0) as nat);
        assert(seq_val(acc, ds.push(c)) == (acc * 10 + digit_val(c)->0) as nat);
    } else {
        assert(ds.push(c)[0] == ds[0]);
        assert(ds.push(c).drop_first() =~= ds.drop_first().push(c));
        let acc2 = (acc * 10 + digit_val(ds[0])->0) as nat;
        lemma_seq_val_snoc(acc2, ds.drop_first(), c);
        assert(seq_val(acc, ds.push(c)) == seq_val(acc2, ds.drop_first().push(c)));
        assert(seq_val(acc, ds) == seq_val(acc2, ds.drop_first()));
    }
}

/// Reading two runs of digits in a row accumulates them in sequence.
pub(crate) proof fn lemma_seq_val_append(acc: nat, x: Seq<char>, y: Seq<char>)
    requires
        forall|k: int| 0 <= k < x.len() ==> digit_val(#[trigger] x[k]) is Some,
    ensures
        seq_val(acc, x + y) == seq_val(seq_val(acc, x), y),
    decreases x.len(),
{
    if x.len() == 0 {
        assert(x + y =~= y);
    } else {
        assert((x + y)[0] == x[0]);
        assert((x + y).drop_first() =~= x.drop_first() + y);
        lemma_seq_val_append((acc * 10 + digit_val(x[0])->0) as nat, x.drop_first(), y);
    }
}

/// The digits of `n` read back as `n`.
proof fn lemma_dec_digits_val(n: nat)
    ensures
        seq_val(0, dec_digits(n)) == n,
    decreases n,
{
    lemma_dec_digits_are_digits(n);
    if n < 10 {
        assert(dec_digits(n)[0] == digit_char(n as int));
        assert(digit_val(digit_char(n as int)) == Some(n as int));
        assert(dec_digits(n).drop_first() =~= Seq::<char>::empty());
        assert(seq_val(n, Seq::<char>::empty()) == n);
    } else {
        lemma_dec_digits_val(n / 10);
        lemma_dec_digits_are_digits(n / 10);
        assert(dec_digits(n) =~= dec_digits(n / 10).push(digit_char((n % 10) as int)));
        assert(digit_val(digit_char((n % 10) as int)) == Some((n % 10) as int));
        lemma_seq_val_snoc(0, dec_digits(n / 10), digit_char((n % 10) as int));
        lemma_fundamental_div_mod(n as int, 10);
    }
}

/// Reading digits from position `pos` with accumulator `acc`, stopping at a
/// newline; fails on a missing newline, a foreign character, or a value
/// that leaves the 64-bit range.
pub open spec fn parse_nat(s: Seq<char>, pos: int, acc: nat) -> Option<(nat, int)>
    decreases s.len() - pos,
{
    if pos < 0 || pos >= s.len() {
        None
    } else if s[pos] == '\n' {
        Some((acc, pos + 1))
    } else {
        match digit_val(s[pos]) {
            Some(d) => {
                let acc2 = acc * 10 + d;
                if acc2 > u64::MAX {
                    None
                } else {
                    parse_nat(s, pos + 1, acc2 as nat)
                }
            },
            None => None,
        }
    }
}

/// `parse_nat` over a run of digits followed by a newline accumulates their
/// value and stops right after the newline.
proof fn lemma_parse_nat_seq(s: Seq<char>, pos: int, acc: nat, ds: Seq<char>)
    requires
        0 <= pos,
        pos + ds.len() + 1 <= s.len(),
        s.subrange(pos, pos + ds.len()) == ds,
        forall|k: int| 0 <= k < ds.len() ==> digit_val(#[trigger] ds[k]) is Some,
        s[pos + ds.len()] == '\n',
        seq_val(acc, ds) <= u64::MAX,
    ensures
        parse_nat(s, pos, acc) == Some((seq_val(acc, ds), pos + ds.len() + 1)),
    decreases ds.len(),
{
    if ds.len() == 0 {
        assert(s[pos] == '\n');
    } else {
        assert(s[pos] == ds[0]);
        assert(digit_val(s[pos]) is Some);
        assert(s[pos] != '\n');
        let d = digit_val(ds[0])->0;
        let acc2 = (acc * 10 + d) as nat;
        lemma_seq_val_lower_bound(acc2, ds.drop_first());
        assert(s.subrange(pos + 1, pos + 1 + ds.drop_first().len()) =~= ds.drop_first());
        lemma_parse_nat_seq(s, pos + 1, acc2, ds.drop_first());
    }
}

/// Splitting a known subrange of `s` into its two concatenated halves.
proof fn lemma_subrange_split(s: Seq<char>, pos: int, a: Seq<char>, b: Seq<char>)
    requires
        0 <= pos,
        pos + a.len() + b.len() <= s.len(),
        s.subrange(pos, pos + a.len() + b.len()) == a + b,
    ensures
        s.subrange(pos, pos + a.len()) == a,
        s.subrange(pos + a.len(), pos + a.len() + b.len()) == b,
{
    assert forall|k: int| 0 <= k < a.len() implies s.subrange(pos, pos + a.len())[k] == a[k] by {
        assert(s.subrange(pos, pos + a.len() + b.len())[k] == (a + b)[k]);
    }
    assert(s.subrange(pos, pos + a.len()) =~= a);
    assert forall|k: int|
        0 <= k < b.len() implies s.subrange(pos + a.len(), pos + a.len() + b.len())[k]
        == b[k] by {
        assert(s.subrange(pos, pos + a.len() + b.len())[a.len() + k] == (a + b)[a.len() + k]);
        assert(s.subrange(pos + a.len(), pos + a.len() + b.len())[k] == s[pos + a.len() + k]);
        assert(s.subrange(pos, pos + a.len() + b.len())[a.len() + k] == s[pos + a.len() + k]);
    }
    assert(s.subrange(pos + a.len(), pos + a.len() + b.len()) =~= b);
}

/// Round trip for numbers: a number encoded at `pos` parses back to itself.
proof fn lemma_parse_enc_nat(s: Seq<char>, pos: int, n: nat)
    requires
        0 <= pos,
        n <= u64::MAX,
        pos + enc_nat(n).len() <= s.len(),
        s.subrange(pos, pos + enc_nat(n).len()) == enc_nat(n),
    ensures
        parse_nat(s, pos, 0) == Some((n, pos + enc_nat(n).len())),
{
    lemma_dec_digits_are_digits(n);
    lemma_dec_digits_val(n);
    let ds = dec_digits(n);
    assert(s.subrange(pos, pos + ds.len()) =~= ds) by {
        assert forall|k: int| 0 <= k < ds.len() implies s.subrange(pos, pos + ds.len())[k]
            == ds[k] by {
            assert(s.subrange(pos, pos + enc_nat(n).len())[k] == enc_nat(n)[k]);
        }
    }
    assert(s[pos + ds.len()] == enc_nat(n)[ds.len() as int]);
    lemma_parse_nat_seq(s, pos, 0, ds);
}

/// A string is encoded as its character count on one line, then exactly
/// that many characters and a newline.
pub open spec fn enc_str(v: Seq<char>) -> Seq<char> {
    enc_nat(v.len()) + v + seq!['\n']
}

/// Read one length-prefixed string starting at `pos`.
pub open spec fn parse_str(s: Seq<char>, pos: int) -> Option<(Seq<char>, int)> {
    match parse_nat(s, pos, 0) {
        Some((k, p)) => if p + k + 1 <= s.len() && s[p + k] == '\n' {
            Some((s.subrange(p, p + k), p + k + 1))
        } else {
            None
        },
        None => None,
    }
}

/// Round trip for strings: a string encoded at `pos` parses back to itself.
proof fn lemma_parse_enc_str(s: Seq<char>, pos: int, v: Seq<char>)
    requires
        0 <= pos,
        v.len() <= u64::MAX,
        pos + enc_str(v).len() <= s.len(),
        s.subrange(pos, pos + enc_str(v).len()) == enc_str(v),
    ensures
        parse_str(s, pos) == Some((v, pos + enc_str(v).len())),
{
    let e1 = enc_nat(v.len());
    let rest = v + seq!['\n'];
    assert(enc_str(v) =~= e1 + rest);
    lemma_subrange_split(s, pos, e1, rest);
    lemma_parse_enc_nat(s, pos, v.len());
    let p = pos + e1.len();
    lemma_subrange_split(s, p, v, seq!['\n']);
    assert(s.subrange(p, p + v.len()) == v);
    assert(s[p + v.len()] == s.subrange(p + v.len(), p + v.len() + 1)[0]);
}

/// A flag is `0` or `1` on one line.
pub open spec fn enc_bool(b: bool) -> Seq<char> {
    if b {
        seq!['1', '\n']
    } else {
        seq!['0', '\n']
    }
}

/// Read one flag starting at `pos`.
pub open spec fn parse_bool(s: Seq<char>, pos: int) -> Option<(bool, int)> {
    if 0 <= pos && pos + 2 <= s.len() && s[pos + 1] == '\n' {
        if s[pos] == '0' {
            Some((false, pos + 2))
        } else if s[pos] == '1' {
            Some((true, pos + 2))
        } else {
            None
        }
    } else {
        None
    }
}

/// Round trip for flags.
proof fn lemma_parse_enc_bool(s: Seq<char>, pos: int, b: bool)
    requires
        0 <= pos,
        pos + 2 <= s.len(),
        s.subrange(pos, pos + 2) == enc_bool(b),
    ensures
        parse_bool(s, pos) == Some((b, pos + 2)),
{
    assert(s[pos] == enc_bool(b)[0]);
    assert(s[pos + 1] == enc_bool(b)[1]);
}

/// An absent value is a `-` line; a present one is its number line.
pub open spec fn enc_opt_nat(o: Option<nat>) -> Seq<char> {
    match o {
        None => seq!['-', '\n'],
        Some(n) => enc_nat(n),
    }
}

/// Read one optional number starting at `pos`.
pub open spec fn parse_opt_nat(s: Seq<char>, pos: int) -> Option<(Option<nat>, int)> {
    if 0 <= pos && pos < s.len() && s[pos] == '-' {
        if pos + 2 <= s.len() && s[pos + 1] == '\n' {
            Some((None, pos + 2))
        } else {
            None
        }
    } else {
        match parse_nat(s, pos, 0) {
            Some((n, p)) => Some((Some(n), p)),
            None => None,
        }
    }
}

/// Round trip for optional numbers: a digit line never starts with `-`.
proof fn lemma_parse_enc_opt_nat(s: Seq<char>, pos: int, o: Option<nat>)
    requires
        0 <= pos,
        o matches Some(n) ==> n <= u64::MAX,
        pos + enc_opt_nat(o).len() <= s.len(),
        s.subrange(pos, pos + enc_opt_nat(o).len()) == enc_opt_nat(o),
    ensures
        parse_opt_nat(s, pos) == Some((o, pos + enc_opt_nat(o).len())),
{
    match o {
        None => {
            assert(s[pos] == enc_opt_nat(o)[0]);
            assert(s[pos + 1] == enc_opt_nat(o)[1]);
        },
        Some(n) => {
            lemma_dec_digits_are_digits(n);
            assert(s[pos] == enc_nat(n)[0]);
            assert(enc_nat(n)[0] == dec_digits(n)[0]);
            assert(digit_val(s[pos]) is Some);
            assert(s[pos] != '-');
            lemma_parse_enc_nat(s, pos, n);
        },
    }
}

/// A 64-bit timestamp lifted into the optional-number encoding.
pub open spec fn opt_nat_of(o: Option<u64>) -> Option<nat> {
    match o {
        None => None,
        Some(n) => Some(n as nat),
    }
}

/// One device record: id, name, credential, registration time, last-seen.
pub open spec fn enc_device(d: DeviceModel) -> Seq<char> {
    enc_str(d.id) + enc_str(d.name) + enc_str(d.token) + enc_nat(d.registered_at as nat)
        + enc_opt_nat(opt_nat_of(d.last_seen_at))
}

/// Read one device record starting at `pos`.
pub open spec fn parse_device(s: Seq<char>, pos: int) -> Option<(DeviceModel, int)> {
    match parse_str(s, pos) {
        Some((id, p1)) => match parse_str(s, p1) {
            Some((name, p2)) => match parse_str(s, p2) {
                Some((token, p3)) => match parse_nat(s, p3, 0) {
                    Some((reg, p4)) => match parse_opt_nat(s, p4) {
                        Some((ls, p5)) => Some(
                            (
                                DeviceModel {
                                    id,
                                    name,
                                    token,
                                    registered_at: reg as u64,
                                    last_seen_at: match ls {
                                        None => None,
                                        Some(v) => Some(v as u64),
                                    },
                                },
                                p5,
                            ),
                        ),
                        None => None,
                    },
                    None => None,
                },
                None => None,
            },
            None => None,
        },
        None => None,
    }
}

/// The device's strings fit the length prefix — true of anything that ever
/// existed in memory.
pub open spec fn device_bounded(d: DeviceModel) -> bool {
    &&& d.id.len() <= u64::MAX
    &&& d.name.len() <= u64::MAX
    &&& d.token.len() <= u64::MAX
}

/// Round trip for one device record.
proof fn lemma_parse_enc_device(s: Seq<char>, pos: int, d: DeviceModel)
    requires
        0 <= pos,
        device_bounded(d),
        pos + enc_device(d).len() <= s.len(),
        s.subrange(pos, pos + enc_device(d).len()) == enc_device(d),
    ensures
        parse_device(s, pos) == Some((d, pos + enc_device(d).len())),
{
    let e1 = enc_str(d.id);
    let e2 = enc_str(d.name);
    let e3 = enc_str(d.token);
    let e4 = enc_nat(d.registered_at as nat);
    let e5 = enc_opt_nat(opt_nat_of(d.last_seen_at));
    assert(enc_device(d) =~= e1 + (e2 + (e3 + (e4 + e5))));
    lemma_subrange_split(s, pos, e1, e2 + (e3 + (e4 + e5)));
    lemma_parse_enc_str(s, pos, d.id);
    let p1 = pos + e1.len();
    lemma_subrange_split(s, p1, e2, e3 + (e4 + e5));
    lemma_parse_enc_str(s, p1, d.name);
    let p2 = p1 + e2.len();
    lemma_subrange_split(s, p2, e3, e4 + e5);
    lemma_parse_enc_str(s, p2, d.token);
    let p3 = p2 + e3.len();
    lemma_subrange_split(s, p3, e4, e5);
    lemma_parse_enc_nat(s, p3, d.registered_at as nat);
    let p4 = p3 + e4.len();
    lemma_parse_enc_opt_nat(s, p4, opt_nat_of(d.last_seen_at));
    match parse_device(s, pos) {
        Some((parsed, p5)) => {
            assert(parsed =~= d);
        },
        None => {},
    }
}

/// The device records back to back, in store order.
pub open spec fn enc_devices(ds: Seq<DeviceModel>) -> Seq<char>
    decreases ds.len(),
{
    if ds.len() == 0 {
        Seq::empty()
    } else {
        enc_device(ds[0]) + enc_devices(ds.drop_first())
    }
}

/// Read exactly `count` device records starting at `pos`.
pub open spec fn parse_devices(s: Seq<char>, pos: int, count: nat) -> Option<
    (Seq<DeviceModel>, int),
>
    decreases count,
{
    if count == 0 {
        Some((Seq::empty(), pos))
    } else {
        match parse_device(s, pos) {
            Some((d, p)) => match parse_devices(s, p, (count - 1) as nat) {
                Some((rest, p2)) => Some((seq![d] + rest, p2)),
                None => None,
            },
            None => None,
        }
    }
}

/// Round trip for the device list.
proof fn lemma_parse_enc_devices(s: Seq<char>, pos: int, ds: Seq<DeviceModel>)
    requires
        0 <= pos,
        forall|k: int| 0 <= k < ds.len() ==> device_bounded(#[trigger] ds[k]),
        pos + enc_devices(ds).len() <= s.len(),
        s.subrange(pos, pos + enc_devices(ds).len()) == enc_devices(ds),
    ensures
        parse_devices(s, pos, ds.len()) == Some((ds, pos + enc_devices(ds).len())),
    decreases ds.len(),
{
    if ds.len() == 0 {
        assert(parse_devices(s, pos, 0) == Some((Seq::<DeviceModel>::empty(), pos)));
        assert(ds =~= Seq::<DeviceModel>::empty());
    } else {
        let rest = ds.drop_first();
        lemma_subrange_split(s, pos, enc_device(ds[0]), enc_devices(rest));
        lemma_parse_enc_device(s, pos, ds[0]);
        let p = pos + enc_device(ds[0]).len();
        lemma_parse_enc_devices(s, p, rest);
        assert(seq![ds[0]] + rest =~= ds);
    }
}

/// The setup token, when present, behind a presence flag.
pub open spec fn enc_setup(o: Option<SetupTokenModel>) -> Seq<char> {
    match o {
        None => enc_bool(false),
        Some(st) => enc_bool(true) + enc_str(st.token) + enc_nat(st.created_at as nat) + enc_nat(
            st.expires_at as nat,
        ) + enc_bool(st.reusable),
    }
}

/// Read the optional setup token starting at `pos`.
pub open spec fn parse_setup(s: Seq<char>, pos: int) -> Option<(Option<SetupTokenModel>, int)> {
    match parse_bool(s, pos) {
        Some((present, p0)) => if !present {
            Some((None, p0))
        } else {
            match parse_str(s, p0) {
                Some((token, p1)) => match parse_nat(s, p1, 0) {
                    Some((created, p2)) => match parse_nat(s, p2, 0) {
                        Some((expires, p3)) => match parse_bool(s, p3) {
                            Some((reusable, p4)) => Some(
                                (
                                    Some(
                                        SetupTokenModel {
                                            token,
                                            created_at: created as u64,
                                            expires_at: expires as u64,
                                            reusable,
                                        },
                                    ),
                                    p4,
                                ),
                            ),
                            None => None,
                        },
                        None => None,
                    },
                    None => None,
                },
                None => None,
            }
        },
        None => None,
    }
}

/// Round trip for the optional setup token.
proof fn lemma_parse_enc_setup(s: Seq<char>, pos: int, o: Option<SetupTokenModel>)
    requires
        0 <= pos,
        o matches Some(st) ==> st.token.len() <= u64::MAX,
        pos + enc_setup(o).len() <= s.len(),
        s.subrange(pos, pos + enc_setup(o).len()) == enc_setup(o),
    ensures
        parse_setup(s, pos) == Some((o, pos + enc_setup(o).len())),
{
    match o {
        None => {
            lemma_parse_enc_bool(s, pos, false);
        },
        Some(st) => {
            let e1 = enc_bool(true);
            let e2 = enc_str(st.token);
            let e3 = enc_nat(st.created_at as nat);
            let e4 = enc_nat(st.expires_at as nat);
            let e5 = enc_bool(st.reusable);
            assert(enc_setup(o) =~= e1 + (e2 + (e3 + (e4 + e5))));
            lemma_subrange_split(s, pos, e1, e2 + (e3 + (e4 + e5)));
            lemma_parse_enc_bool(s, pos, true);
            let p0 = pos + 2;
            lemma_subrange_split(s, p0, e2, e3 + (e4 + e5));
            lemma_parse_enc_str(s, p0, st.token);
            let p1 = p0 + e2.len();
            lemma_subrange_split(s, p1, e3, e4 + e5);
            lemma_parse_enc_nat(s, p1, st.created_at as nat);
            let p2 = p1 + e3.len();
            lemma_subrange_split(s, p2, e4, e5);
            lemma_parse_enc_nat(s, p2, st.expires_at as nat);
            let p3 = p2 + e4.len();
            lemma_parse_enc_bool(s, p3, st.reusable);
            match parse_setup(s, pos) {
                Some((parsed, p4)) => {
                    assert(parsed matches Some(pst) ==> pst =~= st);
                },
                None => {},
            }
        },
    }
}

/// The whole trust store: the setup token, then the device count and the
/// device records.
pub open spec fn spec_encode_store(m: AuthStoreModel) -> Seq<char> {
    enc_setup(m.setup_token) + enc_nat(m.devices.len()) + enc_devices(m.devices)
}

/// Read a whole store starting at `pos`.
pub open spec fn parse_store(s: Seq<char>, pos: int) -> Option<(AuthStoreModel, int)> {
    match parse_setup(s, pos) {
        Some((st, p1)) => match parse_nat(s, p1, 0) {
            Some((count, p2)) => match parse_devices(s, p2, count) {
                Some((ds, p3)) => Some((AuthStoreModel { devices: ds, setup_token: st }, p3)),
                None => None,
            },
            None => None,
        },
        None => None,
    }
}

/// Decode a snapshot: one store, nothing after it.
pub open spec fn spec_decode_store(s: Seq<char>) -> Option<AuthStoreModel> {
    match parse_store(s, 0) {
        Some((m, p)) => if p == s.len() {
            Some(m)
        } else {
            None
        },
        None => None,
    }
}

/// Every string of the store fits its length prefix — true of any store
/// that ever existed in memory, whose lengths fit the machine.
pub open spec fn store_bounded(m: AuthStoreModel) -> bool {
    &&& m.devices.len() <= u64::MAX
    &&& forall|k: int| 0 <= k < m.devices.len() ==> device_bounded(#[trigger] m.devices[k])
    &&& (m.setup_token matches Some(st) ==> st.token.len() <= u64::MAX)
}

/// Persisting a store and reading the snapshot back yields the same store,
/// field for field.
pub proof fn lemma_store_round_trip(m: AuthStoreModel)
    requires
        store_bounded(m),
    ensures
        spec_decode_store(spec_encode_store(m)) == Some(m),
{
    let s = spec_encode_store(m);
    let e1 = enc_setup(m.setup_token);
    let e2 = enc_nat(m.devices.len());
    let e3 = enc_devices(m.devices);
    assert(s =~= e1 + (e2 + e3));
    assert(s.subrange(0, s.len() as int) =~= s);
    lemma_subrange_split(s, 0, e1, e2 + e3);
    lemma_parse_enc_setup(s, 0, m.setup_token);
    let p1 = e1.len() as int;
    lemma_subrange_split(s, p1, e2, e3);
    lemma_parse_enc_nat(s, p1, m.devices.len());
    let p2 = p1 + e2.len();
    lemma_parse_enc_devices(s, p2, m.devices);
    match parse_store(s, 0) {
        Some((parsed, p3)) => {
            assert(parsed =~= m);
        },
        None => {},
    }
}

/// A parsed prefix spliced onto the outcome of parsing the remainder.
spec fn prepend_parsed(acc: Seq<DeviceModel>, o: Option<(Seq<DeviceModel>, int)>) -> Option<
    (Seq<DeviceModel>, int),
> {
    match o {
        Some((ds, p)) => Some((acc + ds, p)),
        None => None,
    }
}

/// Splicing associates with prepending one record.
proof fn lemma_prepend_push(acc: Seq<DeviceModel>, d: DeviceModel, o: Option<(Seq<DeviceModel>, int)>)
    ensures
        prepend_parsed(acc, prepend_parsed(seq![d], o)) == prepend_parsed(acc.push(d), o),
{
    match o {
        Some((ds, p)) => {
            assert(acc + (seq![d] + ds) =~= acc.push(d) + ds);
        },
        None => {},
    }
}

/// One endpoint record: platform token, channel flag, owner, label.
pub open spec fn enc_endpoint(e: PushEndpointModel) -> Seq<char> {
    enc_str(e.platform_token) + enc_bool(e.sandbox) + enc_str(e.owning_device_id) + enc_str(
        e.display_label,
    )
}

/// Read one endpoint record starting at `pos`.
pub open spec fn parse_endpoint(s: Seq<char>, pos: int) -> Option<(PushEndpointModel, int)> {
    match parse_str(s, pos) {
        Some((platform_token, p1)) => match parse_bool(s, p1) {
            Some((sandbox, p2)) => match parse_str(s, p2) {
                Some((owning_device_id, p3)) => match parse_str(s, p3) {
                    Some((display_label, p4)) => Some(
                        (
                            PushEndpointModel {
                                platform_token,
                                sandbox,
                                owning_device_id,
                                display_label,
                            },
                            p4,
                        ),
                    ),
                    None => None,
                },
                None => None,
            },
            None => None,
        },
        None => None,
    }
}

/// The endpoint's strings fit the length prefix.
pub open spec fn endpoint_bounded(e: PushEndpointModel) -> bool {
    &&& e.platform_token.len() <= u64::MAX
    &&& e.owning_device_id.len() <= u64::MAX
    &&& e.display_label.len() <= u64::MAX
}

/// Round trip for one endpoint record.
proof fn lemma_parse_enc_endpoint(s: Seq<char>, pos: int, e: PushEndpointModel)
    requires
        0 <= pos,
        endpoint_bounded(e),
        pos + enc_endpoint(e).len() <= s.len(),
        s.subrange(pos, pos + enc_endpoint(e).len()) == enc_endpoint(e),
    ensures
        parse_endpoint(s, pos) == Some((e, pos + enc_endpoint(e).len())),
{
    let e1 = enc_str(e.platform_token);
    let e2 = enc_bool(e.sandbox);
    let e3 = enc_str(e.owning_device_id);
    let e4 = enc_str(e.display_label);
    assert(enc_endpoint(e) =~= e1 + (e2 + (e3 + e4)));
    lemma_subrange_split(s, pos, e1, e2 + (e3 + e4));
    lemma_parse_enc_str(s, pos, e.platform_token);
    let p1 = pos + e1.len();
    lemma_subrange_split(s, p1, e2, e3 + e4);
    lemma_parse_enc_bool(s, p1, e.sandbox);
    let p2 = p1 + 2;
    lemma_subrange_split(s, p2, e3, e4);
    lemma_parse_enc_str(s, p2, e.owning_device_id);
    let p3 = p2 + e3.len();
    lemma_parse_enc_str(s, p3, e.display_label);
    match parse_endpoint(s, pos) {
        Some((parsed, p4)) => {
            assert(parsed =~= e);
        },
        None => {},
    }
}

/// The endpoint records back to back, behind their count.
pub open spec fn enc_endpoints(es: Seq<PushEndpointModel>) -> Seq<char>
    decreases es.len(),
{
    if es.len() == 0 {
        Seq::empty()
    } else {
        enc_endpoint(es[0]) + enc_endpoints(es.drop_first())
    }
}

/// Read exactly `count` endpoint records starting at `pos`.
pub open spec fn parse_endpoints(s: Seq<char>, pos: int, count: nat) -> Option<
    (Seq<PushEndpointModel>, int),
>
    decreases count,
{
    if count == 0 {
        Some((Seq::empty(), pos))
    } else {
        match parse_endpoint(s, pos) {
            Some((e, p)) => match parse_endpoints(s, p, (count - 1) as nat) {
                Some((rest, p2)) => Some((seq![e] + rest, p2)),
                None => None,
            },
            None => None,
        }
    }
}

/// Round trip for the endpoint list.
proof fn lemma_parse_enc_endpoints(s: Seq<char>, pos: int, es: Seq<PushEndpointModel>)
    requires
        0 <= pos,
        forall|k: int| 0 <= k < es.len() ==> endpoint_bounded(#[trigger] es[k]),
        pos + enc_endpoints(es).len() <= s.len(),
        s.subrange(pos, pos + enc_endpoints(es).len()) == enc_endpoints(es),
    ensures
        parse_endpoints(s, pos, es.len()) == Some((es, pos + enc_endpoints(es).len())),
    decreases es.len(),
{
    if es.len() == 0 {
        assert(es =~= Seq::<PushEndpointModel>::empty());
    } else {
        let rest = es.drop_first();
        lemma_subrange_split(s, pos, enc_endpoint(es[0]), enc_endpoints(rest));
        lemma_parse_enc_endpoint(s, pos, es[0]);
        let p = pos + enc_endpoint(es[0]).len();
        lemma_parse_enc_endpoints(s, p, rest);
        assert(seq![es[0]] + rest =~= es);
    }
}

/// The whole endpoint registry: the count, then the records.
pub open spec fn spec_encode_registry(es: Seq<PushEndpointModel>) -> Seq<char> {
    enc_nat(es.len()) + enc_endpoints(es)
}

/// Decode a registry snapshot: one registry, nothing after it.
pub open spec fn spec_decode_registry(s: Seq<char>) -> Option<Seq<PushEndpointModel>> {
    match parse_nat(s, 0, 0) {
        Some((count, p1)) => match parse_endpoints(s, p1, count) {
            Some((es, p2)) => if p2 == s.len() {
                Some(es)
            } else {
                None
            },
            None => None,
        },
        None => None,
    }
}

/// Every string of the registry fits its length prefix.
pub open spec fn registry_bounded(es: Seq<PushEndpointModel>) -> bool {
    &&& es.len() <= u64::MAX
    &&& forall|k: int| 0 <= k < es.len() ==> endpoint_bounded(#[trigger] es[k])
}

/// Persisting the endpoint registry and reading the snapshot back yields the
/// same registry, record for record.
pub proof fn lemma_registry_round_trip(es: Seq<PushEndpointModel>)
    requires
        registry_bounded(es),
    ensures
        spec_decode_registry(spec_encode_registry(es)) == Some(es),
{
    let s = spec_encode_registry(es);
    let e1 = enc_nat(es.len());
    let e2 = enc_endpoints(es);
    assert(s.subrange(0, s.len() as int) =~= s);
    lemma_subrange_split(s, 0, e1, e2);
    lemma_parse_enc_nat(s, 0, es.len());
    lemma_parse_enc_endpoints(s, e1.len() as int, es);
}

/// The single decimal digit `d` as text.
fn digit_str(d: u64) -> (r: &'static str)
    requires
        d < 10,
    ensures
        r@ == seq![digit_char(d as int)],
{
    match d {
        0 => {
            proof {
                reveal_strlit("0");
                assert("0"@ =~= seq![digit_char(0int)]);
            }
            "0"
        },
        1 => {
            proof {
                reveal_strlit("1");
                assert("1"@ =~= seq![digit_char(1int)]);
            }
            "1"
        },
        2 => {
            proof {
                reveal_strlit("2");
                assert("2"@ =~= seq![digit_char(2int)]);
            }
            "2"
        },
        3 => {
            proof {
                reveal_strlit("3");
                assert("3"@ =~= seq![digit_char(3int)]);
            }
            "3"
        },
        4 => {
            proof {
                reveal_strlit("4");
                assert("4"@ =~= seq![digit_char(4int)]);
            }
            "4"
        },
        5 => {
            proof {
                reveal_strlit("5");
                assert("5"@ =~= seq![digit_char(5int)]);
            }
            "5"
        },
        6 => {
            proof {
                reveal_strlit("6");
                assert("6"@ =~= seq![digit_char(6int)]);
            }
            "6"
        },
        7 => {
            proof {
                reveal_strlit("7");
                assert("7"@ =~= seq![digit_char(7int)]);
            }
            "7"
        },
        8 => {
            proof {
                reveal_strlit("8");
                assert("8"@ =~= seq![digit_char(8int)]);
            }
            "8"
        },
        _ => {
            proof {
                reveal_strlit("9");
                assert("9"@ =~= seq![digit_char(9int)]);
            }
            "9"
        },
    }
}

/// Append the decimal digits of `n`.
pub(crate) fn push_dec(out: &mut String, n: u64)
    ensures
        final(out)@ == old(out)@ + dec_digits(n as nat),
    decreases n,
{
    if n >= 10 {
        push_dec(out, n / 10);
        let ghost mid = out@;
        out.append(digit_str(n % 10));
        proof {
            assert(out@ =~= old(out)@ + dec_digits(n as nat));
        }
    } else {
        out.append(digit_str(n));
    }
}

/// Append one number line.
fn push_nat_line(out: &mut String, n: u64)
    ensures
        final(out)@ == old(out)@ + enc_nat(n as nat),
{
    push_dec(out, n);
    out.append("\n");
    proof {
        reveal_strlit("\n");
        assert("\n"@ =~= seq!['\n']);
        assert(out@ =~= old(out)@ + enc_nat(n as nat));
    }
}

/// Append one length-prefixed string field.
fn push_str_field(out: &mut String, v: &str)
    ensures
        final(out)@ == old(out)@ + enc_str(v@),
{
    let len = v.unicode_len();
    push_nat_line(out, len as u64);
    out.append(v);
    out.append("\n");
    proof {
        reveal_strlit("\n");
        assert("\n"@ =~= seq!['\n']);
        assert(out@ =~= old(out)@ + enc_str(v@));
    }
}

/// Append one flag line.
fn push_bool_line(out: &mut String, b: bool)
    ensures
        final(out)@ == old(out)@ + enc_bool(b),
{
    if b {
        out.append("1\n");
        proof {
            reveal_strlit("1\n");
            assert("1\n"@ =~= seq!['1', '\n']);
        }
    } else {
        out.append("0\n");
        proof {
            reveal_strlit("0\n");
            assert("0\n"@ =~= seq!['0', '\n']);
        }
    }
}

/// Append one optional-number line.
fn push_opt_line(out: &mut String, o: Option<u64>)
    ensures
        final(out)@ == old(out)@ + enc_opt_nat(opt_nat_of(o)),
{
    match o {
        None => {
            out.append("-\n");
            proof {
                reveal_strlit("-\n");
                assert("-\n"@ =~= seq!['-', '\n']);
            }
        },
        Some(n) => {
            push_nat_line(out, n);
        },
    }
}

/// Append one device record.
fn push_device(out: &mut String, d: &Device)
    ensures
        final(out)@ == old(out)@ + enc_device(d.deep_view()),
{
    push_str_field(out, d.id.as_str());
    push_str_field(out, d.name.as_str());
    push_str_field(out, d.token.as_str());
    push_nat_line(out, d.registered_at);
    push_opt_line(out, d.last_seen_at);
    proof {
        assert(out@ =~= old(out)@ + enc_device(d.deep_view()));
    }
}

/// Appending one more record to an encoded device list.
proof fn lemma_enc_devices_snoc(ds: Seq<DeviceModel>, d: DeviceModel)
    ensures
        enc_devices(ds.push(d)) == enc_devices(ds) + enc_device(d),
    decreases ds.len(),
{
    if ds.len() == 0 {
        assert(ds.push(d)[0] == d);
        assert(ds.push(d).drop_first() =~= Seq::<DeviceModel>::empty());
        assert(enc_devices(Seq::<DeviceModel>::empty()) =~= Seq::<char>::empty());
        assert(enc_devices(ds.push(d)) == enc_device(d) + enc_devices(ds.push(d).drop_first()));
        assert(enc_devices(ds.push(d)) =~= enc_devices(ds) + enc_device(d));
    } else {
        assert(ds.push(d)[0] == ds[0]);
        assert(ds.push(d).drop_first() =~= ds.drop_first().push(d));
        lemma_enc_devices_snoc(ds.drop_first(), d);
        assert(enc_devices(ds.push(d)) =~= enc_devices(ds) + enc_device(d));
    }
}

/// Print a complete snapshot of the trust store.
pub fn encode_auth_store(store: &AuthStore) -> (r: String)
    ensures
        r@ == spec_encode_store(store.deep_view()),
{
    let mut out = String::new();
    match &store.setup_token {
        None => {
            push_bool_line(&mut out, false);
        },
        Some(st) => {
            push_bool_line(&mut out, true);
            push_str_field(&mut out, st.token.as_str());
            push_nat_line(&mut out, st.created_at);
            push_nat_line(&mut out, st.expires_at);
            push_bool_line(&mut out, st.reusable);
        },
    }
    proof {
        assert(out@ =~= enc_setup(store.deep_view().setup_token));
    }
    let ghost header = out@;
    let count = store.devices.len();
    push_nat_line(&mut out, count as u64);
    let ghost with_count = out@;
    let mut i: usize = 0;
    proof {
        assert(store.deep_view().devices.subrange(0, 0) =~= Seq::<DeviceModel>::empty());
    }
    while i < count
        invariant
            i <= count,
            count == store.devices.len(),
            out@ == with_count + enc_devices(store.deep_view().devices.subrange(0, i as int)),
        decreases count - i,
    {
        let ghost prefix = store.deep_view().devices.subrange(0, i as int);
        push_device(&mut out, &store.devices[i]);
        proof {
            lemma_enc_devices_snoc(prefix, store.deep_view().devices[i as int]);
            assert(prefix.push(store.deep_view().devices[i as int]) =~= store.deep_view()
                .devices.subrange(0, i as int + 1));
            assert(out@ =~= with_count + enc_devices(
                store.deep_view().devices.subrange(0, i as int + 1),
            ));
        }
        i = i + 1;
    }
    proof {
        assert(store.deep_view().devices.subrange(0, count as int) =~= store.deep_view().devices);
        assert(out@ =~= spec_encode_store(store.deep_view()));
    }
    out
}

/// Append one endpoint record.
fn push_endpoint(out: &mut String, e: &PushEndpoint)
    ensures
        final(out)@ == old(out)@ + enc_endpoint(e.deep_view()),
{
    push_str_field(out, e.platform_token.as_str());
    push_bool_line(out, e.sandbox);
    push_str_field(out, e.owning_device_id.as_str());
    push_str_field(out, e.display_label.as_str());
    proof {
        assert(out@ =~= old(out)@ + enc_endpoint(e.deep_view()));
    }
}

/// Appending one more record to an encoded endpoint list.
proof fn lemma_enc_endpoints_snoc(es: Seq<PushEndpointModel>, e: PushEndpointModel)
    ensures
        enc_endpoints(es.push(e)) == enc_endpoints(es) + enc_endpoint(e),
    decreases es.len(),
{
    if es.len() == 0 {
        assert(es.push(e)[0] == e);
        assert(es.push(e).drop_first() =~= Seq::<PushEndpointModel>::empty());
        assert(enc_endpoints(Seq::<PushEndpointModel>::empty()) =~= Seq::<char>::empty());
        assert(enc_endpoints(es.push(e)) == enc_endpoint(e) + enc_endpoints(
            es.push(e).drop_first(),
        ));
        assert(enc_endpoints(es.push(e)) =~= enc_endpoints(es) + enc_endpoint(e));
    } else {
        assert(es.push(e)[0] == es[0]);
        assert(es.push(e).drop_first() =~= es.drop_first().push(e));
        lemma_enc_endpoints_snoc(es.drop_first(), e);
        assert(enc_endpoints(es.push(e)) =~= enc_endpoints(es) + enc_endpoint(e));
    }
}

/// Print a complete snapshot of the endpoint registry.
pub fn encode_registry(endpoints: &Vec<PushEndpoint>) -> (r: String)
    ensures
        r@ == spec_encode_registry(endpoints.deep_view()),
{
    let mut out = String::new();
    let count = endpoints.len();
    push_nat_line(&mut out, count as u64);
    let ghost with_count = out@;
    let mut i: usize = 0;
    proof {
        assert(endpoints.deep_view().subrange(0, 0) =~= Seq::<PushEndpointModel>::empty());
    }
    while i < count
        invariant
            i <= count,
            count == endpoints.len(),
            out@ == with_count + enc_endpoints(endpoints.deep_view().subrange(0, i as int)),
        decreases count - i,
    {
        let ghost prefix = endpoints.deep_view().subrange(0, i as int);
        push_endpoint(&mut out, &endpoints[i]);
        proof {
            lemma_enc_endpoints_snoc(prefix, endpoints.deep_view()[i as int]);
            assert(prefix.push(endpoints.deep_view()[i as int]) =~= endpoints.deep_view()
                .subrange(0, i as int + 1));
            assert(out@ =~= with_count + enc_endpoints(
                endpoints.deep_view().subrange(0, i as int + 1),
            ));
        }
        i = i + 1;
    }
    proof {
        assert(endpoints.deep_view().subrange(0, count as int) =~= endpoints.deep_view());
        assert(out@ =~= spec_encode_registry(endpoints.deep_view()));
    }
    out
}

/// Numeric value of one digit character.
pub(crate) fn digit_val_exec(c: char) -> (r: Option<u64>)
    ensures
        match r {
            Some(d) => digit_val(c) == Some(d as int),
            None => digit_val(c) is None,
        },
{
    if c == '0' {
        Some(0)
    } else if c == '1' {
        Some(1)
    } else if c == '2' {
        Some(2)
    } else if c == '3' {
        Some(3)
    } else if c == '4' {
        Some(4)
    } else if c == '5' {
        Some(5)
    } else if c == '6' {
        Some(6)
    } else if c == '7' {
        Some(7)
    } else if c == '8' {
        Some(8)
    } else if c == '9' {
        Some(9)
    } else {
        None
    }
}

/// Read one number line; the executable image of [`parse_nat`].
fn parse_nat_exec(s: &str, pos: usize) -> (r: Option<(u64, usize)>)
    requires
        pos <= s@.len(),
    ensures
        match r {
            Some(v) => parse_nat(s@, pos as int, 0) == Some((v.0 as nat, v.1 as int)) && v.1
                <= s@.len(),
            None => parse_nat(s@, pos as int, 0) is None,
        },
{
    let n_len = s.unicode_len();
    let mut i = pos;
    let mut acc: u64 = 0;
    while i < n_len
        invariant
            pos <= i <= n_len,
            n_len == s@.len(),
            parse_nat(s@, pos as int, 0) == parse_nat(s@, i as int, acc as nat),
        decreases n_len - i,
    {
        let c = s.get_char(i);
        if c == '\n' {
            return Some((acc, i + 1));
        }
        match digit_val_exec(c) {
            Some(d) => {
                let acc10 = match acc.checked_mul(10) {
                    Some(v) => v,
                    None => {
                        return None;
                    },
                };
                let acc2 = match acc10.checked_add(d) {
                    Some(v) => v,
                    None => {
                        return None;
                    },
                };
                acc = acc2;
            },
            None => {
                return None;
            },
        }
        i = i + 1;
    }
    None
}

/// Read one length-prefixed string field; the executable image of
/// [`parse_str`].
fn parse_str_exec(s: &str, pos: usize) -> (r: Option<(String, usize)>)
    requires
        pos <= s@.len(),
    ensures
        match r {
            Some(v) => parse_str(s@, pos as int) == Some((v.0@, v.1 as int)) && v.1 <= s@.len(),
            None => parse_str(s@, pos as int) is None,
        },
{
    let n_len = s.unicode_len();
    let (k, p) = match parse_nat_exec(s, pos) {
        Some(v) => v,
        None => {
            return None;
        },
    };
    let rem = n_len - p;
    if rem == 0 || k > (rem - 1) as u64 {
        return None;
    }
    let kk = k as usize;
    if s.get_char(p + kk) != '\n' {
        return None;
    }
    let content = s.substring_char(p, p + kk).to_owned();
    Some((content, p + kk + 1))
}

/// Read one flag line; the executable image of [`parse_bool`].
fn parse_bool_exec(s: &str, pos: usize) -> (r: Option<(bool, usize)>)
    requires
        pos <= s@.len(),
    ensures
        match r {
            Some(v) => parse_bool(s@, pos as int) == Some((v.0, v.1 as int)) && v.1 <= s@.len(),
            None => parse_bool(s@, pos as int) is None,
        },
{
    let n_len = s.unicode_len();
    if n_len - pos < 2 {
        return None;
    }
    if s.get_char(pos + 1) != '\n' {
        return None;
    }
    let c = s.get_char(pos);
    if c == '0' {
        Some((false, pos + 2))
    } else if c == '1' {
        Some((true, pos + 2))
    } else {
        None
    }
}

/// Read one optional-number line; the executable image of [`parse_opt_nat`].
fn parse_opt_nat_exec(s: &str, pos: usize) -> (r: Option<(Option<u64>, usize)>)
    requires
        pos <= s@.len(),
    ensures
        match r {
            Some(v) => parse_opt_nat(s@, pos as int) == Some((opt_nat_of(v.0), v.1 as int)) && v.1
                <= s@.len(),
            None => parse_opt_nat(s@, pos as int) is None,
        },
{
    let n_len = s.unicode_len();
    if pos < n_len && s.get_char(pos) == '-' {
        if n_len - pos >= 2 && s.get_char(pos + 1) == '\n' {
            Some((None, pos + 2))
        } else {
            None
        }
    } else {
        match parse_nat_exec(s, pos) {
            Some((n, p)) => Some((Some(n), p)),
            None => None,
        }
    }
}

/// Read one device record; the executable image of [`parse_device`].
fn parse_device_exec(s: &str, pos: usize) -> (r: Option<(Device, usize)>)
    requires
        pos <= s@.len(),
    ensures
        match r {
            Some(v) => parse_device(s@, pos as int) == Some((v.0.deep_view(), v.1 as int)) && v.1
                <= s@.len(),
            None => parse_device(s@, pos as int) is None,
        },
{
    let (id, p1) = match parse_str_exec(s, pos) {
        Some(v) => v,
        None => {
            return None;
        },
    };
    let (name, p2) = match parse_str_exec(s, p1) {
        Some(v) => v,
        None => {
            return None;
        },
    };
    let (token, p3) = match parse_str_exec(s, p2) {
        Some(v) => v,
        None => {
            return None;
        },
    };
    let (registered_at, p4) = match parse_nat_exec(s, p3) {
        Some(v) => v,
        None => {
            return None;
        },
    };
    let (last_seen_at, p5) = match parse_opt_nat_exec(s, p4) {
        Some(v) => v,
        None => {
            return None;
        },
    };
    let device = Device { id, name, token, registered_at, last_seen_at };
    proof {
        match parse_device(s@, pos as int) {
            Some((dm, p)) => {
                assert(dm =~= device.deep_view());
            },
            None => {},
        }
    }
    Some((device, p5))
}

/// Read exactly `count` device records; the executable image of
/// [`parse_devices`].
fn parse_devices_exec(s: &str, pos: usize, count: u64) -> (r: Option<(Vec<Device>, usize)>)
    requires
        pos <= s@.len(),
    ensures
        match r {
            Some(v) => parse_devices(s@, pos as int, count as nat) == Some(
                (v.0.deep_view(), v.1 as int),
            ) && v.1 <= s@.len(),
            None => parse_devices(s@, pos as int, count as nat) is None,
        },
{
    let mut ds: Vec<Device> = Vec::new();
    let mut p = pos;
    let mut j: u64 = 0;
    proof {
        assert(ds.deep_view() =~= Seq::<DeviceModel>::empty());
        match parse_devices(s@, p as int, count as nat) {
            Some((rest, q)) => {
                assert(ds.deep_view() + rest =~= rest);
            },
            None => {},
        }
    }
    while j < count
        invariant
            j <= count,
            p <= s@.len(),
            prepend_parsed(ds.deep_view(), parse_devices(s@, p as int, (count - j) as nat))
                == parse_devices(s@, pos as int, count as nat),
        decreases count - j,
    {
        let ghost before = ds.deep_view();
        let ghost remaining = (count - j) as nat;
        match parse_device_exec(s, p) {
            Some((d, p2)) => {
                proof {
                    assert(parse_devices(s@, p as int, remaining) == prepend_parsed(
                        seq![d.deep_view()],
                        parse_devices(s@, p2 as int, (remaining - 1) as nat),
                    ));
                    lemma_prepend_push(
                        before,
                        d.deep_view(),
                        parse_devices(s@, p2 as int, (remaining - 1) as nat),
                    );
                }
                ds.push(d);
                proof {
                    assert(ds.deep_view() =~= before.push(ds.deep_view()[before.len() as int]));
                }
                p = p2;
            },
            None => {
                return None;
            },
        }
        j = j + 1;
    }
    proof {
        assert(parse_devices(s@, p as int, 0) == Some((Seq::<DeviceModel>::empty(), p as int)));
        assert(ds.deep_view() + Seq::<DeviceModel>::empty() =~= ds.deep_view());
    }
    Some((ds, p))
}

/// Read the optional setup token; the executable image of [`parse_setup`].
fn parse_setup_exec(s: &str, pos: usize) -> (r: Option<(Option<SetupToken>, usize)>)
    requires
        pos <= s@.len(),
    ensures
        match r {
            Some(v) => parse_setup(s@, pos as int) == Some((v.0.deep_view(), v.1 as int)) && v.1
                <= s@.len(),
            None => parse_setup(s@, pos as int) is None,
        },
{
    let (present, p0) = match parse_bool_exec(s, pos) {
        Some(v) => v,
        None => {
            return None;
        },
    };
    if !present {
        return Some((None, p0));
    }
    let (token, p1) = match parse_str_exec(s, p0) {
        Some(v) => v,
        None => {
            return None;
        },
    };
    let (created_at, p2) = match parse_nat_exec(s, p1) {
        Some(v) => v,
        None => {
            return None;
        },
    };
    let (expires_at, p3) = match parse_nat_exec(s, p2) {
        Some(v) => v,
        None => {
            return None;
        },
    };
    let (reusable, p4) = match parse_bool_exec(s, p3) {
        Some(v) => v,
        None => {
            return None;
        },
    };
    let st = SetupToken { token, created_at, expires_at, reusable };
    proof {
        match parse_setup(s@, pos as int) {
            Some((o, p)) => {
                match o {
                    Some(om) => {
                        assert(om =~= st.deep_view());
                    },
                    None => {},
                }
            },
            None => {},
        }
    }
    Some((Some(st), p4))
}

/// Decode one snapshot of the trust store: the store it encodes, or nothing
/// when the text is not exactly one snapshot.  The caller treats a rejected
/// or absent file as the empty store.
pub fn decode_auth_store(text: &str) -> (r: Option<AuthStore>)
    ensures
        match r {
            Some(store) => spec_decode_store(text@) == Some(store.deep_view()),
            None => spec_decode_store(text@) is None,
        },
{
    let (setup_token, p1) = match parse_setup_exec(text, 0) {
        Some(v) => v,
        None => {
            return None;
        },
    };
    let (count, p2) = match parse_nat_exec(text, p1) {
        Some(v) => v,
        None => {
            return None;
        },
    };
    let (devices, p3) = match parse_devices_exec(text, p2, count) {
        Some(v) => v,
        None => {
            return None;
        },
    };
    if p3 != text.unicode_len() {
        return None;
    }
    let store = AuthStore { devices, setup_token };
    proof {
        match parse_store(text@, 0) {
            Some((m, p)) => {
                assert(m =~= store.deep_view());
            },
            None => {},
        }
    }
    Some(store)
}

/// A parsed endpoint prefix spliced onto the outcome of the remainder.
spec fn prepend_parsed_eps(
    acc: Seq<PushEndpointModel>,
    o: Option<(Seq<PushEndpointModel>, int)>,
) -> Option<(Seq<PushEndpointModel>, int)> {
    match o {
        Some((es, p)) => Some((acc + es, p)),
        None => None,
    }
}

/// Splicing associates with prepending one endpoint record.
proof fn lemma_prepend_push_eps(
    acc: Seq<PushEndpointModel>,
    e: PushEndpointModel,
    o: Option<(Seq<PushEndpointModel>, int)>,
)
    ensures
        prepend_parsed_eps(acc, prepend_parsed_eps(seq![e], o)) == prepend_parsed_eps(
            acc.push(e),
            o,
        ),
{
    match o {
        Some((es, p)) => {
            assert(acc + (seq![e] + es) =~= acc.push(e) + es);
        },
        None => {},
    }
}

/// Read one endpoint record; the executable image of [`parse_endpoint`].
fn parse_endpoint_exec(s: &str, pos: usize) -> (r: Option<(PushEndpoint, usize)>)
    requires
        pos <= s@.len(),
    ensures
        match r {
            Some(v) => parse_endpoint(s@, pos as int) == Some((v.0.deep_view(), v.1 as int)) && v.1
                <= s@.len(),
            None => parse_endpoint(s@, pos as int) is None,
        },
{
    let (platform_token, p1) = match parse_str_exec(s, pos) {
        Some(v) => v,
        None => {
            return None;
        },
    };
    let (sandbox, p2) = match parse_bool_exec(s, p1) {
        Some(v) => v,
        None => {
            return None;
        },
    };
    let (owning_device_id, p3) = match parse_str_exec(s, p2) {
        Some(v) => v,
        None => {
            return None;
        },
    };
    let (display_label, p4) = match parse_str_exec(s, p3) {
        Some(v) => v,
        None => {
            return None;
        },
    };
    let endpoint = PushEndpoint { platform_token, sandbox, owning_device_id, display_label };
    proof {
        match parse_endpoint(s@, pos as int) {
            Some((em, p)) => {
                assert(em =~= endpoint.deep_view());
            },
            None => {},
        }
    }
    Some((endpoint, p4))
}

/// Decode one snapshot of the endpoint registry, or nothing when the text is
/// not exactly one snapshot.  The caller treats a rejected or absent file as
/// the empty registry.
pub fn decode_registry(text: &str) -> (r: Option<Vec<PushEndpoint>>)
    ensures
        match r {
            Some(endpoints) => spec_decode_registry(text@) == Some(endpoints.deep_view()),
            None => spec_decode_registry(text@) is None,
        },
{
    let (count, p1) = match parse_nat_exec(text, 0) {
        Some(v) => v,
        None => {
            return None;
        },
    };
    let mut es: Vec<PushEndpoint> = Vec::new();
    let mut p = p1;
    let mut j: u64 = 0;
    proof {
        assert(es.deep_view() =~= Seq::<PushEndpointModel>::empty());
        match parse_endpoints(text@, p as int, count as nat) {
            Some((rest, q)) => {
                assert(es.deep_view() + rest =~= rest);
            },
            None => {},
        }
    }
    while j < count
        invariant
            j <= count,
            p <= text@.len(),
            parse_nat(text@, 0, 0) == Some((count as nat, p1 as int)),
            prepend_parsed_eps(es.deep_view(), parse_endpoints(text@, p as int, (count - j) as nat))
                == parse_endpoints(text@, p1 as int, count as nat),
        decreases count - j,
    {
        let ghost before = es.deep_view();
        let ghost remaining = (count - j) as nat;
        match parse_endpoint_exec(text, p) {
            Some((e, p2)) => {
                proof {
                    assert(parse_endpoints(text@, p as int, remaining) == prepend_parsed_eps(
                        seq![e.deep_view()],
                        parse_endpoints(text@, p2 as int, (remaining - 1) as nat),
                    ));
                    lemma_prepend_push_eps(
                        before,
                        e.deep_view(),
                        parse_endpoints(text@, p2 as int, (remaining - 1) as nat),
                    );
                }
                es.push(e);
                proof {
                    assert(es.deep_view() =~= before.push(es.deep_view()[before.len() as int]));
                }
                p = p2;
            },
            None => {
                return None;
            },
        }
        j = j + 1;
    }
    proof {
        assert(parse_endpoints(text@, p as int, 0) == Some(
            (Seq::<PushEndpointModel>::empty(), p as int),
        ));
        assert(es.deep_view() + Seq::<PushEndpointModel>::empty() =~= es.deep_view());
    }
    if p != text.unicode_len() {
        return None;
    }
    Some(es)
}

} // verus!
