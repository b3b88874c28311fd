//! Data model of the terminal-multiplexer adapter, and the parsing of its
//! pane listing.
//!
//! The adapter itself is process invocation at the daemon's edge and stays
//! outside the library; what stands here is the pure part: the record format
//! one pane-per-line listing uses (eight fields separated by `|`), and the
//! grouping of those flat records into sessions, windows and panes.

use vstd::prelude::*;
use vstd::pervasive::VecAdditionalExecFns;

use crate::codec::{
    dec_digits, digit_val, digit_val_exec, lemma_seq_val_append, lemma_seq_val_lower_bound,
    lemma_seq_val_snoc, push_dec, seq_val,
};
use crate::text::str_eq;

verus! {

/// Errors of the multiplexer adapter.
#[derive(Debug)]
pub enum TmuxError {
    /// The process could not be spawned or its pipes read.
    Io(String),
    /// The command ran and failed; its diagnostic text.
    Command(String),
}

/// One pane of a window.
#[derive(Debug)]
pub struct Pane {
    pub index: u32,
    pub active: bool,
    pub target: String,
    pub current_path: String,
}

/// One window of a session.
#[derive(Debug)]
pub struct Window {
    pub index: u32,
    pub name: String,
    pub active: bool,
    pub panes: Vec<Pane>,
}

/// One multiplexer session.
#[derive(Debug)]
pub struct Session {
    pub name: String,
    pub attached: bool,
    pub windows: Vec<Window>,
}

/// One line of the pane listing, before grouping.
#[derive(Debug)]
pub struct PaneRecord {
    pub session_name: String,
    pub session_attached: bool,
    pub window_index: u32,
    pub window_name: String,
    pub window_active: bool,
    pub pane_index: u32,
    pub pane_active: bool,
    pub current_path: String,
}

/// Mathematical image of a [`Pane`].
#[verifier::ext_equal]
pub ghost struct PaneModel {
    pub index: u32,
    pub active: bool,
    pub target: Seq<char>,
    pub current_path: Seq<char>,
}

/// Mathematical image of a [`Window`].
#[verifier::ext_equal]
pub ghost struct WindowModel {
    pub index: u32,
    pub name: Seq<char>,
    pub active: bool,
    pub panes: Seq<PaneModel>,
}

/// Mathematical image of a [`Session`].
#[verifier::ext_equal]
pub ghost struct SessionModel {
    pub name: Seq<char>,
    pub attached: bool,
    pub windows: Seq<WindowModel>,
}

/// Mathematical image of a [`PaneRecord`].
#[verifier::ext_equal]
pub ghost struct PaneRecordModel {
    pub session_name: Seq<char>,
    pub session_attached: bool,
    pub window_index: u32,
    pub window_name: Seq<char>,
    pub window_active: bool,
    pub pane_index: u32,
    pub pane_active: bool,
    pub current_path: Seq<char>,
}

impl DeepView for Pane {
    type V = PaneModel;

    open spec fn deep_view(&self) -> PaneModel {
        PaneModel {
            index: self.index,
            active: self.active,
            target: self.target@,
            current_path: self.current_path@,
        }
    }
}

impl DeepView for Window {
    type V = WindowModel;

    open spec fn deep_view(&self) -> WindowModel {
        WindowModel {
            index: self.index,
            name: self.name@,
            active: self.active,
            panes: self.panes.deep_view(),
        }
    }
}

impl DeepView for Session {
    type V = SessionModel;

    open spec fn deep_view(&self) -> SessionModel {
        SessionModel {
            name: self.name@,
            attached: self.attached,
            windows: self.windows.deep_view(),
        }
    }
}

impl DeepView for PaneRecord {
    type V = PaneRecordModel;

    open spec fn deep_view(&self) -> PaneRecordModel {
        PaneRecordModel {
            session_name: self.session_name@,
            session_attached: self.session_attached,
            window_index: self.window_index,
            window_name: self.window_name@,
            window_active: self.window_active,
            pane_index: self.pane_index,
            pane_active: self.pane_active,
            current_path: self.current_path@,
        }
    }
}

/// `s` cut at every occurrence of `sep`: one piece more than there are
/// separators, in order, none containing `sep`.
pub open spec fn spec_split(s: Seq<char>, sep: char) -> Seq<Seq<char>>
    decreases s.len(),
{
    if s.len() == 0 {
        seq![Seq::<char>::empty()]
    } else if s[0] == sep {
        seq![Seq::<char>::empty()] + spec_split(s.drop_first(), sep)
    } else {
        let rest = spec_split(s.drop_first(), sep);
        rest.update(0, seq![s[0]] + rest[0])
    }
}

/// A split always yields at least one piece.
proof fn lemma_spec_split_nonempty(s: Seq<char>, sep: char)
    ensures
        spec_split(s, sep).len() >= 1,
    decreases s.len(),
{
    if s.len() > 0 {
        lemma_spec_split_nonempty(s.drop_first(), sep);
    }
}

/// The pieces already cut, the piece being read, and the split of what
/// remains, assembled into one split.
spec fn split_state(done: Seq<Seq<char>>, cur: Seq<char>, rest: Seq<Seq<char>>) -> Seq<Seq<char>>
    recommends
        rest.len() >= 1,
{
    done + seq![cur + rest[0]] + rest.drop_first()
}

/// The executable image of [`spec_split`].
pub fn split_char(s: &str, sep: char) -> (r: Vec<String>)
    ensures
        r.deep_view() == spec_split(s@, sep),
{
    let n = s.unicode_len();
    let mut done: Vec<String> = Vec::new();
    let mut start: usize = 0;
    let mut i: usize = 0;
    proof {
        lemma_spec_split_nonempty(s@, sep);
        assert(s@.skip(0) =~= s@);
        assert(done.deep_view() =~= Seq::<Seq<char>>::empty());
        assert(split_state(done.deep_view(), s@.subrange(0, 0), spec_split(s@, sep)) =~= spec_split(
            s@,
            sep,
        ));
    }
    while i < n
        invariant
            start <= i <= n,
            n == s@.len(),
            split_state(
                done.deep_view(),
                s@.subrange(start as int, i as int),
                spec_split(s@.skip(i as int), sep),
            ) == spec_split(s@, sep),
        decreases n - i,
    {
        let ghost remaining = s@.skip(i as int);
        let ghost rest_split = spec_split(s@.skip(i as int + 1), sep);
        proof {
            assert(remaining[0] == s@[i as int]);
            assert(remaining.drop_first() =~= s@.skip(i as int + 1));
            lemma_spec_split_nonempty(s@.skip(i as int + 1), sep);
        }
        if s.get_char(i) == sep {
            let ghost before = done.deep_view();
            let ghost cur = s@.subrange(start as int, i as int);
            let piece = s.substring_char(start, i).to_owned();
            done.push(piece);
            proof {
                assert(spec_split(remaining, sep) == seq![Seq::<char>::empty()] + rest_split);
                assert(done.deep_view() =~= before.push(cur));
                assert(cur + Seq::<char>::empty() =~= cur);
                assert((seq![Seq::<char>::empty()] + rest_split).drop_first() =~= rest_split);
                assert(split_state(before, cur, spec_split(remaining, sep)) =~= split_state(
                    before.push(cur),
                    s@.subrange(i as int + 1, i as int + 1),
                    rest_split,
                ));
            }
            start = i + 1;
        } else {
            proof {
                let grown = rest_split.update(0, seq![s@[i as int]] + rest_split[0]);
                assert(spec_split(remaining, sep) == grown);
                assert(grown.drop_first() =~= rest_split.drop_first());
                assert(s@.subrange(start as int, i as int) + (seq![s@[i as int]] + rest_split[0])
                    =~= s@.subrange(start as int, i as int + 1) + rest_split[0]);
                assert(split_state(
                    done.deep_view(),
                    s@.subrange(start as int, i as int),
                    spec_split(remaining, sep),
                ) =~= split_state(
                    done.deep_view(),
                    s@.subrange(start as int, i as int + 1),
                    rest_split,
                ));
            }
        }
        i = i + 1;
    }
    let ghost before = done.deep_view();
    let ghost cur = s@.subrange(start as int, n as int);
    let last = s.substring_char(start, n).to_owned();
    done.push(last);
    proof {
        assert(s@.skip(n as int).len() == 0);
        assert(spec_split(s@.skip(n as int), sep) == seq![Seq::<char>::empty()]);
        assert(done.deep_view() =~= before.push(cur));
        assert(cur + Seq::<char>::empty() =~= cur);
        assert(split_state(before, cur, seq![Seq::<char>::empty()]) =~= before.push(cur));
    }
    done
}

/// The numeric value of an all-digit field, as the listing prints indices;
/// anything else — empty, a foreign character, an overflow — reads as zero.
pub open spec fn spec_u32_or_zero(s: Seq<char>) -> u32 {
    if s.len() >= 1 && (forall|k: int| 0 <= k < s.len() ==> digit_val(#[trigger] s[k]) is Some)
        && seq_val(0, s) <= u32::MAX {
        seq_val(0, s) as u32
    } else {
        0
    }
}

/// The executable image of [`spec_u32_or_zero`].
pub fn parse_u32_or_zero(s: &str) -> (r: u32)
    ensures
        r == spec_u32_or_zero(s@),
{
    let n = s.unicode_len();
    if n == 0 {
        return 0;
    }
    let mut acc: u32 = 0;
    let mut i: usize = 0;
    proof {
        assert(s@.subrange(0, 0) =~= Seq::<char>::empty());
    }
    while i < n
        invariant
            i <= n,
            n == s@.len(),
            forall|k: int| 0 <= k < i ==> digit_val(#[trigger] s@[k]) is Some,
            acc == seq_val(0, s@.subrange(0, i as int)),
        decreases n - i,
    {
        let ghost prefix = s@.subrange(0, i as int);
        let c = s.get_char(i);
        let d = match digit_val_exec(c) {
            Some(d) => d,
            None => {
                return 0;
            },
        };
        proof {
            assert(prefix.push(c) =~= s@.subrange(0, i as int + 1));
            lemma_seq_val_snoc(0, prefix, c);
        }
        let acc10 = match acc.checked_mul(10) {
            Some(v) => v,
            None => {
                proof {
                    overflow_means_zero(s@, i as int, (acc as nat * 10 + digit_val(c)->0) as nat);
                }
                return 0;
            },
        };
        let acc2 = match acc10.checked_add(d as u32) {
            Some(v) => v,
            None => {
                proof {
                    overflow_means_zero(s@, i as int, (acc as nat * 10 + digit_val(c)->0) as nat);
                }
                return 0;
            },
        };
        acc = acc2;
        i = i + 1;
    }
    proof {
        assert(s@.subrange(0, n as int) =~= s@);
    }
    acc
}

/// When the value accumulated through position `i` already exceeds `u32`,
/// the whole field reads as zero.
proof fn overflow_means_zero(s: Seq<char>, i: int, through: nat)
    requires
        0 <= i < s.len(),
        forall|k: int| 0 <= k <= i ==> digit_val(#[trigger] s[k]) is Some,
        through == seq_val(0, s.subrange(0, i + 1)),
        through > u32::MAX,
    ensures
        spec_u32_or_zero(s) == 0,
{
    if forall|k: int| 0 <= k < s.len() ==> digit_val(#[trigger] s[k]) is Some {
        assert(s.subrange(0, i + 1) + s.skip(i + 1) =~= s);
        lemma_seq_val_append(0, s.subrange(0, i + 1), s.skip(i + 1));
        lemma_seq_val_lower_bound(through, s.skip(i + 1));
        assert(seq_val(0, s) >= through);
    }
}

/// The pane address printed into a listing line: session, window and pane,
/// in the `name:w.p` form the multiplexer addresses targets by.
pub open spec fn spec_target(name: Seq<char>, w: u32, p: u32) -> Seq<char> {
    name + seq![':'] + dec_digits(w as nat) + seq!['.'] + dec_digits(p as nat)
}

/// The executable image of [`spec_target`].
pub fn make_target(name: &str, w: u32, p: u32) -> (r: String)
    ensures
        r@ == spec_target(name@, w, p),
{
    let mut out = name.to_owned();
    out.append(":");
    push_dec(&mut out, w as u64);
    out.append(".");
    push_dec(&mut out, p as u64);
    proof {
        reveal_strlit(":");
        reveal_strlit(".");
        assert(":"@ =~= seq![':']);
        assert("."@ =~= seq!['.']);
        assert(out@ =~= spec_target(name@, w, p));
    }
    out
}

/// The record one listing line yields: exactly eight `|`-separated fields,
/// indices read as numbers, flags compared against `1`; any other line is
/// skipped.
pub open spec fn spec_record_of(pieces: Seq<Seq<char>>) -> Option<PaneRecordModel> {
    if pieces.len() != 8 {
        None
    } else {
        Some(
            PaneRecordModel {
                session_name: pieces[0],
                session_attached: pieces[1] == seq!['1'],
                window_index: spec_u32_or_zero(pieces[2]),
                window_name: pieces[3],
                window_active: pieces[4] == seq!['1'],
                pane_index: spec_u32_or_zero(pieces[5]),
                pane_active: pieces[6] == seq!['1'],
                current_path: pieces[7],
            },
        )
    }
}

/// One listing line, split and read.
pub open spec fn spec_parse_line(line: Seq<char>) -> Option<PaneRecordModel> {
    spec_record_of(spec_split(line, '|'))
}

/// The executable image of [`spec_parse_line`].
pub fn parse_pane_record(line: &str) -> (r: Option<PaneRecord>)
    ensures
        r.deep_view() == spec_parse_line(line@),
{
    let pieces = split_char(line, '|');
    if pieces.len() != 8 {
        return None;
    }
    let rec = PaneRecord {
        session_name: pieces[0].clone(),
        session_attached: str_eq(pieces[1].as_str(), "1"),
        window_index: parse_u32_or_zero(pieces[2].as_str()),
        window_name: pieces[3].clone(),
        window_active: str_eq(pieces[4].as_str(), "1"),
        pane_index: parse_u32_or_zero(pieces[5].as_str()),
        pane_active: str_eq(pieces[6].as_str(), "1"),
        current_path: pieces[7].clone(),
    };
    proof {
        reveal_strlit("1");
        assert("1"@ =~= seq!['1']);
        assert(rec.deep_view() =~= spec_parse_line(line@)->0);
    }
    Some(rec)
}

/// The pane one record stands for, with its composed target address.
pub open spec fn pane_of_record(r: PaneRecordModel) -> PaneModel {
    PaneModel {
        index: r.pane_index,
        active: r.pane_active,
        target: spec_target(r.session_name, r.window_index, r.pane_index),
        current_path: r.current_path,
    }
}

/// The window a record opens when its index is new to the session.
pub open spec fn window_of_record(r: PaneRecordModel) -> WindowModel {
    WindowModel {
        index: r.window_index,
        name: r.window_name,
        active: r.window_active,
        panes: seq![pane_of_record(r)],
    }
}

/// The session a record opens when its name is new.
pub open spec fn session_of_record(r: PaneRecordModel) -> SessionModel {
    SessionModel {
        name: r.session_name,
        attached: r.session_attached,
        windows: seq![window_of_record(r)],
    }
}

/// A record's pane appended to the first window with its index, or a new
/// window appended.
pub open spec fn spec_add_to_windows(ws: Seq<WindowModel>, r: PaneRecordModel) -> Seq<WindowModel>
    decreases ws.len(),
{
    if ws.len() == 0 {
        seq![window_of_record(r)]
    } else if ws[0].index == r.window_index {
        seq![WindowModel { panes: ws[0].panes.push(pane_of_record(r)), ..ws[0] }]
            + ws.drop_first()
    } else {
        seq![ws[0]] + spec_add_to_windows(ws.drop_first(), r)
    }
}

/// A record placed into the first session with its name, or a new session
/// appended.
pub open spec fn spec_add_to_sessions(
    ss: Seq<SessionModel>,
    r: PaneRecordModel,
) -> Seq<SessionModel>
    decreases ss.len(),
{
    if ss.len() == 0 {
        seq![session_of_record(r)]
    } else if ss[0].name == r.session_name {
        seq![SessionModel { windows: spec_add_to_windows(ss[0].windows, r), ..ss[0] }]
            + ss.drop_first()
    } else {
        seq![ss[0]] + spec_add_to_sessions(ss.drop_first(), r)
    }
}

/// The flat records grouped into sessions, windows and panes, in order.
pub open spec fn spec_group(rs: Seq<PaneRecordModel>) -> Seq<SessionModel>
    decreases rs.len(),
{
    if rs.len() == 0 {
        Seq::empty()
    } else {
        spec_add_to_sessions(spec_group(rs.drop_last()), rs.last())
    }
}

/// Adding over the first matching window updates it in place.
proof fn lemma_add_windows_at(ws: Seq<WindowModel>, r: PaneRecordModel, i: int)
    requires
        0 <= i < ws.len(),
        ws[i].index == r.window_index,
        forall|k: int| 0 <= k < i ==> ws[k].index != r.window_index,
    ensures
        spec_add_to_windows(ws, r) == ws.update(
            i,
            WindowModel { panes: ws[i].panes.push(pane_of_record(r)), ..ws[i] },
        ),
    decreases ws.len(),
{
    if i == 0 {
        assert(spec_add_to_windows(ws, r) =~= ws.update(
            0,
            WindowModel { panes: ws[0].panes.push(pane_of_record(r)), ..ws[0] },
        ));
    } else {
        let rest = ws.drop_first();
        assert forall|k: int| 0 <= k < i - 1 implies rest[k].index != r.window_index by {
            assert(ws[k + 1].index != r.window_index);
        }
        lemma_add_windows_at(rest, r, i - 1);
        assert(seq![ws[0]] + rest.update(
            i - 1,
            WindowModel { panes: rest[i - 1].panes.push(pane_of_record(r)), ..rest[i - 1] },
        ) =~= ws.update(i, WindowModel { panes: ws[i].panes.push(pane_of_record(r)), ..ws[i] }));
    }
}

/// Adding a window index the session lacks appends a new window.
proof fn lemma_add_windows_absent(ws: Seq<WindowModel>, r: PaneRecordModel)
    requires
        forall|k: int| 0 <= k < ws.len() ==> ws[k].index != r.window_index,
    ensures
        spec_add_to_windows(ws, r) == ws.push(window_of_record(r)),
    decreases ws.len(),
{
    if ws.len() == 0 {
        assert(spec_add_to_windows(ws, r) =~= ws.push(window_of_record(r)));
    } else {
        let rest = ws.drop_first();
        assert forall|k: int| 0 <= k < rest.len() implies rest[k].index != r.window_index by {
            assert(ws[k + 1].index != r.window_index);
        }
        lemma_add_windows_absent(rest, r);
        assert(seq![ws[0]] + rest.push(window_of_record(r)) =~= ws.push(window_of_record(r)));
    }
}

/// Adding over the first matching session updates it in place.
proof fn lemma_add_sessions_at(ss: Seq<SessionModel>, r: PaneRecordModel, i: int)
    requires
        0 <= i < ss.len(),
        ss[i].name == r.session_name,
        forall|k: int| 0 <= k < i ==> ss[k].name != r.session_name,
    ensures
        spec_add_to_sessions(ss, r) == ss.update(
            i,
            SessionModel { windows: spec_add_to_windows(ss[i].windows, r), ..ss[i] },
        ),
    decreases ss.len(),
{
    if i == 0 {
        assert(spec_add_to_sessions(ss, r) =~= ss.update(
            0,
            SessionModel { windows: spec_add_to_windows(ss[0].windows, r), ..ss[0] },
        ));
    } else {
        let rest = ss.drop_first();
        assert forall|k: int| 0 <= k < i - 1 implies rest[k].name != r.session_name by {
            assert(ss[k + 1].name != r.session_name);
        }
        lemma_add_sessions_at(rest, r, i - 1);
        assert(seq![ss[0]] + rest.update(
            i - 1,
            SessionModel { windows: spec_add_to_windows(rest[i - 1].windows, r), ..rest[i - 1] },
        ) =~= ss.update(
            i,
            SessionModel { windows: spec_add_to_windows(ss[i].windows, r), ..ss[i] },
        ));
    }
}

/// Adding a session name the list lacks appends a new session.
proof fn lemma_add_sessions_absent(ss: Seq<SessionModel>, r: PaneRecordModel)
    requires
        forall|k: int| 0 <= k < ss.len() ==> ss[k].name != r.session_name,
    ensures
        spec_add_to_sessions(ss, r) == ss.push(session_of_record(r)),
    decreases ss.len(),
{
    if ss.len() == 0 {
        assert(spec_add_to_sessions(ss, r) =~= ss.push(session_of_record(r)));
    } else {
        let rest = ss.drop_first();
        assert forall|k: int| 0 <= k < rest.len() implies rest[k].name != r.session_name by {
            assert(ss[k + 1].name != r.session_name);
        }
        lemma_add_sessions_absent(rest, r);
        assert(seq![ss[0]] + rest.push(session_of_record(r)) =~= ss.push(session_of_record(r)));
    }
}

/// A field-for-field copy of a pane.
fn clone_pane(p: &Pane) -> (r: Pane)
    ensures
        r.deep_view() == p.deep_view(),
{
    Pane {
        index: p.index,
        active: p.active,
        target: p.target.clone(),
        current_path: p.current_path.clone(),
    }
}

/// A field-for-field copy of a window.
fn clone_window(w: &Window) -> (r: Window)
    ensures
        r.deep_view() == w.deep_view(),
{
    let mut panes: Vec<Pane> = Vec::new();
    let n = w.panes.len();
    let mut i: usize = 0;
    while i < n
        invariant
            i <= n,
            n == w.panes.len(),
            panes.deep_view() == w.panes.deep_view().subrange(0, i as int),
        decreases n - i,
    {
        let ghost before = panes.deep_view();
        let c = clone_pane(&w.panes[i]);
        panes.push(c);
        proof {
            assert(panes.deep_view() =~= before.push(w.panes.deep_view()[i as int]));
            assert(w.panes.deep_view().subrange(0, i as int).push(
                w.panes.deep_view()[i as int],
            ) =~= w.panes.deep_view().subrange(0, i as int + 1));
        }
        i = i + 1;
    }
    proof {
        assert(w.panes.deep_view().subrange(0, n as int) =~= w.panes.deep_view());
    }
    let r = Window { index: w.index, name: w.name.clone(), active: w.active, panes };
    proof {
        assert(r.deep_view() =~= w.deep_view());
    }
    r
}

/// A field-for-field copy of a session.
fn clone_session(s: &Session) -> (r: Session)
    ensures
        r.deep_view() == s.deep_view(),
{
    let mut windows: Vec<Window> = Vec::new();
    let n = s.windows.len();
    let mut i: usize = 0;
    while i < n
        invariant
            i <= n,
            n == s.windows.len(),
            windows.deep_view() == s.windows.deep_view().subrange(0, i as int),
        decreases n - i,
    {
        let ghost before = windows.deep_view();
        let c = clone_window(&s.windows[i]);
        windows.push(c);
        proof {
            assert(windows.deep_view() =~= before.push(s.windows.deep_view()[i as int]));
            assert(s.windows.deep_view().subrange(0, i as int).push(
                s.windows.deep_view()[i as int],
            ) =~= s.windows.deep_view().subrange(0, i as int + 1));
        }
        i = i + 1;
    }
    proof {
        assert(s.windows.deep_view().subrange(0, n as int) =~= s.windows.deep_view());
    }
    let r = Session { name: s.name.clone(), attached: s.attached, windows };
    proof {
        assert(r.deep_view() =~= s.deep_view());
    }
    r
}

/// The pane a record stands for; the executable image of [`pane_of_record`].
fn make_pane(rec: &PaneRecord) -> (r: Pane)
    ensures
        r.deep_view() == pane_of_record(rec.deep_view()),
{
    Pane {
        index: rec.pane_index,
        active: rec.pane_active,
        target: make_target(rec.session_name.as_str(), rec.window_index, rec.pane_index),
        current_path: rec.current_path.clone(),
    }
}

/// Place one record into a session's windows; the executable image of
/// [`spec_add_to_windows`].
#[verifier::loop_isolation(false)]
fn add_to_windows(windows: &mut Vec<Window>, rec: &PaneRecord)
    ensures
        final(windows).deep_view() == spec_add_to_windows(
            old(windows).deep_view(),
            rec.deep_view(),
        ),
{
    let ghost prior = windows.deep_view();
    let n = windows.len();
    let mut i: usize = 0;
    while i < n
        invariant
            i <= n,
            n == windows.len(),
            windows.deep_view() == prior,
            forall|k: int| 0 <= k < i ==> prior[k].index != rec.deep_view().window_index,
        decreases n - i,
    {
        if windows[i].index == rec.window_index {
            let mut updated = clone_window(&windows[i]);
            updated.panes.push(make_pane(rec));
            proof {
                assert(updated.deep_view() =~= WindowModel {
                    panes: prior[i as int].panes.push(pane_of_record(rec.deep_view())),
                    ..prior[i as int]
                });
            }
            windows.set(i, updated);
            proof {
                lemma_add_windows_at(prior, rec.deep_view(), i as int);
                assert(windows.deep_view() =~= prior.update(
                    i as int,
                    WindowModel {
                        panes: prior[i as int].panes.push(pane_of_record(rec.deep_view())),
                        ..prior[i as int]
                    },
                ));
            }
            return ;
        }
        i = i + 1;
    }
    let fresh = Window {
        index: rec.window_index,
        name: rec.window_name.clone(),
        active: rec.window_active,
        panes: Vec::new(),
    };
    let mut fresh = fresh;
    fresh.panes.push(make_pane(rec));
    proof {
        assert(fresh.deep_view().panes =~= seq![pane_of_record(rec.deep_view())]);
        assert(fresh.deep_view() =~= window_of_record(rec.deep_view()));
    }
    windows.push(fresh);
    proof {
        lemma_add_windows_absent(prior, rec.deep_view());
        assert(windows.deep_view() =~= prior.push(window_of_record(rec.deep_view())));
    }
}

/// Place one record into the session list; the executable image of
/// [`spec_add_to_sessions`].
#[verifier::loop_isolation(false)]
fn add_to_sessions(sessions: &mut Vec<Session>, rec: &PaneRecord)
    ensures
        final(sessions).deep_view() == spec_add_to_sessions(
            old(sessions).deep_view(),
            rec.deep_view(),
        ),
{
    let ghost prior = sessions.deep_view();
    let n = sessions.len();
    let mut i: usize = 0;
    while i < n
        invariant
            i <= n,
            n == sessions.len(),
            sessions.deep_view() == prior,
            forall|k: int| 0 <= k < i ==> prior[k].name != rec.deep_view().session_name,
        decreases n - i,
    {
        if str_eq(sessions[i].name.as_str(), rec.session_name.as_str()) {
            let mut updated = clone_session(&sessions[i]);
            add_to_windows(&mut updated.windows, rec);
            proof {
                assert(updated.deep_view() =~= SessionModel {
                    windows: spec_add_to_windows(prior[i as int].windows, rec.deep_view()),
                    ..prior[i as int]
                });
            }
            sessions.set(i, updated);
            proof {
                lemma_add_sessions_at(prior, rec.deep_view(), i as int);
                assert(sessions.deep_view() =~= prior.update(
                    i as int,
                    SessionModel {
                        windows: spec_add_to_windows(prior[i as int].windows, rec.deep_view()),
                        ..prior[i as int]
                    },
                ));
            }
            return ;
        }
        i = i + 1;
    }
    let mut fresh = Session {
        name: rec.session_name.clone(),
        attached: rec.session_attached,
        windows: Vec::new(),
    };
    add_to_windows(&mut fresh.windows, rec);
    proof {
        assert(Seq::<WindowModel>::empty() =~= fresh.deep_view().windows.subrange(0, 0));
        assert(fresh.deep_view().windows =~= seq![window_of_record(rec.deep_view())]);
        assert(fresh.deep_view() =~= session_of_record(rec.deep_view()));
    }
    sessions.push(fresh);
    proof {
        lemma_add_sessions_absent(prior, rec.deep_view());
        assert(sessions.deep_view() =~= prior.push(session_of_record(rec.deep_view())));
    }
}

/// Group flat pane records into sessions; the executable image of
/// [`spec_group`].
pub fn build_sessions(records: &Vec<PaneRecord>) -> (r: Vec<Session>)
    ensures
        r.deep_view() == spec_group(records.deep_view()),
{
    let mut out: Vec<Session> = Vec::new();
    let n = records.len();
    let mut i: usize = 0;
    proof {
        assert(records.deep_view().subrange(0, 0) =~= Seq::<PaneRecordModel>::empty());
    }
    while i < n
        invariant
            i <= n,
            n == records.len(),
            out.deep_view() == spec_group(records.deep_view().subrange(0, i as int)),
        decreases n - i,
    {
        add_to_sessions(&mut out, &records[i]);
        proof {
            let next = records.deep_view().subrange(0, i as int + 1);
            assert(next.drop_last() =~= records.deep_view().subrange(0, i as int));
            assert(next.last() == records.deep_view()[i as int]);
        }
        i = i + 1;
    }
    proof {
        assert(records.deep_view().subrange(0, n as int) =~= records.deep_view());
    }
    out
}

/// The records of a listing's lines, in order, unreadable lines skipped.
pub open spec fn spec_records_of(lines: Seq<Seq<char>>) -> Seq<PaneRecordModel>
    decreases lines.len(),
{
    if lines.len() == 0 {
        Seq::empty()
    } else {
        match spec_parse_line(lines[0]) {
            Some(r) => seq![r] + spec_records_of(lines.drop_first()),
            None => spec_records_of(lines.drop_first()),
        }
    }
}

/// The sessions one whole pane listing describes.
pub open spec fn spec_sessions_of_listing(text: Seq<char>) -> Seq<SessionModel> {
    spec_group(spec_records_of(spec_split(text, '\n')))
}

/// Parse one whole pane listing, as the `list-panes` adapter captures it,
/// into grouped sessions; the executable image of
/// [`spec_sessions_of_listing`].
pub fn sessions_of_listing(text: &str) -> (r: Vec<Session>)
    ensures
        r.deep_view() == spec_sessions_of_listing(text@),
{
    let lines = split_char(text, '\n');
    let ghost lines_m = lines.deep_view();
    let mut records: Vec<PaneRecord> = Vec::new();
    let n = lines.len();
    let mut i: usize = 0;
    proof {
        assert(lines_m.skip(0) =~= lines_m);
        assert(records.deep_view() + spec_records_of(lines_m) =~= spec_records_of(lines_m));
    }
    while i < n
        invariant
            i <= n,
            n == lines.len(),
            lines.deep_view() == lines_m,
            spec_records_of(lines_m) == records.deep_view() + spec_records_of(
                lines_m.skip(i as int),
            ),
        decreases n - i,
    {
        let ghost before = records.deep_view();
        proof {
            assert(lines_m.skip(i as int)[0] == lines_m[i as int]);
            assert(lines_m.skip(i as int).drop_first() =~= lines_m.skip(i as int + 1));
        }
        match parse_pane_record(lines[i].as_str()) {
            Some(rec) => {
                records.push(rec);
                proof {
                    assert(records.deep_view() =~= before.push(
                        records.deep_view()[before.len() as int],
                    ));
                    assert(before + (seq![records.deep_view()[before.len() as int]]
                        + spec_records_of(lines_m.skip(i as int + 1))) =~= records.deep_view()
                        + spec_records_of(lines_m.skip(i as int + 1)));
                }
            },
            None => {},
        }
        i = i + 1;
    }
    proof {
        assert(lines_m.skip(n as int).len() == 0);
        assert(spec_records_of(lines_m.skip(n as int)) =~= Seq::<PaneRecordModel>::empty());
        assert(records.deep_view() + Seq::<PaneRecordModel>::empty() =~= records.deep_view());
    }
    build_sessions(&records)
}

} // verus!
