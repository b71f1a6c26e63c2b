//! The wire format: one self-describing JSON document per message, in the
//! compact form without extra whitespace.
//!
//! The serializers are specified exactly by spec functions over character
//! sequences.  The parser is strict: it accepts exactly the canonical
//! documents the serializers produce, so whenever it accepts a message
//! `m` as a value `v`, serializing `v` again yields `m` byte for byte.

use vstd::prelude::*;

use crate::client::{AppEvent, AppEventV};
use crate::game::{
    backlog_view, estimated_view, players_view, ActionV, Game, GameAction, GameV,
};
use crate::model::{
    BacklogStory, BacklogStoryV, EstimatedStory, EstimatedStoryV, Player, PlayerRole, PlayerV,
    SelectedStory, SelectedStoryV, StoryInfo, StoryInfoV, User, UserV, VoteEntryV,
};
use crate::ids::{GameId, StoryId, UserId};
use crate::vote::{is_allowed_value, Vote};

verus! {

/// The hexadecimal digit character for `d` (lowercase).
pub open spec fn hex_digit(d: int) -> char {
    if d == 0 {
        '0'
    } else if d == 1 {
        '1'
    } else if d == 2 {
        '2'
    } else if d == 3 {
        '3'
    } else if d == 4 {
        '4'
    } else if d == 5 {
        '5'
    } else if d == 6 {
        '6'
    } else if d == 7 {
        '7'
    } else if d == 8 {
        '8'
    } else if d == 9 {
        '9'
    } else if d == 10 {
        'a'
    } else if d == 11 {
        'b'
    } else if d == 12 {
        'c'
    } else if d == 13 {
        'd'
    } else if d == 14 {
        'e'
    } else {
        'f'
    }
}

/// JSON escape of one character: quote, backslash and control characters
/// are escaped (the five common controls by their short forms, the rest
/// as `\u00XX`); everything else stands for itself.
pub open spec fn esc_char(c: char) -> Seq<char> {
    if c == '"' {
        seq!['\\', '"']
    } else if c == '\\' {
        seq!['\\', '\\']
    } else if c == '\u{8}' {
        seq!['\\', 'b']
    } else if c == '\u{9}' {
        seq!['\\', 't']
    } else if c == '\u{A}' {
        seq!['\\', 'n']
    } else if c == '\u{C}' {
        seq!['\\', 'f']
    } else if c == '\u{D}' {
        seq!['\\', 'r']
    } else if (c as u32) < 0x20 {
        seq!['\\', 'u', '0', '0', hex_digit((c as u32) as int / 16), hex_digit(
            (c as u32) as int % 16,
        )]
    } else {
        seq![c]
    }
}

/// JSON escape of a whole string body.
pub open spec fn esc_string(s: Seq<char>) -> Seq<char>
    decreases s.len(),
{
    if s.len() == 0 {
        Seq::empty()
    } else {
        esc_string(s.drop_last()) + esc_char(s.last())
    }
}

/// A JSON string: the escaped body between double quotes.
pub open spec fn ser_string(s: Seq<char>) -> Seq<char> {
    seq!['"'] + esc_string(s) + seq!['"']
}

/// The `k` lowest hexadecimal digits of `t`, least significant first.
pub open spec fn hex_rev(t: int, k: nat) -> Seq<char>
    decreases k,
{
    if k == 0 {
        Seq::empty()
    } else {
        seq![hex_digit(t % 16)] + hex_rev(t / 16, (k - 1) as nat)
    }
}

/// The 32 hexadecimal digits of a 128-bit token, most significant first.
pub open spec fn uuid_chars(t: int) -> Seq<char> {
    hex_rev(t, 32).reverse()
}

/// The canonical text form of a 128-bit token: 32 lowercase hexadecimal
/// digits in the 8-4-4-4-12 grouping.
pub open spec fn ser_uuid(t: int) -> Seq<char> {
    let h = uuid_chars(t);
    h.subrange(0, 8) + seq!['-'] + h.subrange(8, 12) + seq!['-'] + h.subrange(12, 16) + seq![
        '-',
    ] + h.subrange(16, 20) + seq!['-'] + h.subrange(20, 32)
}

/// Decimal digits of a non-negative number, no leading zeros.
pub open spec fn dec_chars(n: int) -> Seq<char>
    decreases n,
{
    if n < 0 {
        Seq::empty()
    } else if n < 10 {
        seq![hex_digit(n)]
    } else {
        dec_chars(n / 10).push(hex_digit(n % 10))
    }
}

pub open spec fn ser_bool(b: bool) -> Seq<char> {
    if b {
        "true"@
    } else {
        "false"@
    }
}

/// Appends a string literal.
fn push_lit(out: &mut Vec<char>, lit: &str)
    ensures
        final(out)@ == old(out)@ + lit@,
{
    let n = lit.unicode_len();
    let mut i: usize = 0;
    proof {
        assert(out@ =~= old(out)@ + lit@.take(0));
    }
    while i < n
        invariant
            i <= n,
            n == lit@.len(),
            out@ == old(out)@ + lit@.take(i as int),
        decreases n - i,
    {
        out.push(lit.get_char(i));
        proof {
            assert(lit@.take(i as int + 1) =~= lit@.take(i as int).push(lit@[i as int]));
            assert(out@ =~= old(out)@ + lit@.take(i as int + 1));
        }
        i += 1;
    }
    proof {
        assert(lit@.take(n as int) =~= lit@);
    }
}

fn hex_digit_char(d: u8) -> (c: char)
    requires
        d < 16,
    ensures
        c == hex_digit(d as int),
{
    if d == 0 {
        '0'
    } else if d == 1 {
        '1'
    } else if d == 2 {
        '2'
    } else if d == 3 {
        '3'
    } else if d == 4 {
        '4'
    } else if d == 5 {
        '5'
    } else if d == 6 {
        '6'
    } else if d == 7 {
        '7'
    } else if d == 8 {
        '8'
    } else if d == 9 {
        '9'
    } else if d == 10 {
        'a'
    } else if d == 11 {
        'b'
    } else if d == 12 {
        'c'
    } else if d == 13 {
        'd'
    } else if d == 14 {
        'e'
    } else {
        'f'
    }
}

/// Appends the decimal form of `n`.
fn push_dec(out: &mut Vec<char>, n: u64)
    ensures
        final(out)@ == old(out)@ + dec_chars(n as int),
    decreases n,
{
    if n < 10 {
        out.push(hex_digit_char(n as u8));
        proof {
            assert(out@ =~= old(out)@ + dec_chars(n as int));
        }
    } else {
        push_dec(out, n / 10);
        out.push(hex_digit_char((n % 10) as u8));
        proof {
            assert(out@ =~= old(out)@ + dec_chars(n as int));
        }
    }
}

/// Appends one character in its JSON-escaped form.
fn push_esc_char(out: &mut Vec<char>, c: char)
    ensures
        final(out)@ == old(out)@ + esc_char(c),
{
    if c == '"' {
        out.push('\\');
        out.push('"');
    } else if c == '\\' {
        out.push('\\');
        out.push('\\');
    } else if c == '\u{8}' {
        out.push('\\');
        out.push('b');
    } else if c == '\u{9}' {
        out.push('\\');
        out.push('t');
    } else if c == '\u{A}' {
        out.push('\\');
        out.push('n');
    } else if c == '\u{C}' {
        out.push('\\');
        out.push('f');
    } else if c == '\u{D}' {
        out.push('\\');
        out.push('r');
    } else {
        let v = c as u32;
        if v < 0x20 {
            out.push('\\');
            out.push('u');
            out.push('0');
            out.push('0');
            out.push(hex_digit_char((v / 16) as u8));
            out.push(hex_digit_char((v % 16) as u8));
        } else {
            out.push(c);
        }
    }
    proof {
        assert(out@ =~= old(out)@ + esc_char(c));
    }
}

/// Appends a JSON string (quotes and escapes included).
fn push_json_string(out: &mut Vec<char>, s: &str)
    ensures
        final(out)@ == old(out)@ + ser_string(s@),
{
    out.push('"');
    let n = s.unicode_len();
    let mut i: usize = 0;
    proof {
        assert(out@ =~= old(out)@ + seq!['"'] + esc_string(s@.take(0)));
    }
    while i < n
        invariant
            i <= n,
            n == s@.len(),
            out@ == old(out)@ + seq!['"'] + esc_string(s@.take(i as int)),
        decreases n - i,
    {
        push_esc_char(out, s.get_char(i));
        proof {
            assert(s@.take(i as int + 1).drop_last() =~= s@.take(i as int));
            assert(s@.take(i as int + 1).last() == s@[i as int]);
            assert(out@ =~= old(out)@ + seq!['"'] + esc_string(s@.take(i as int + 1)));
        }
        i += 1;
    }
    out.push('"');
    proof {
        assert(s@.take(n as int) =~= s@);
        assert(out@ =~= old(out)@ + ser_string(s@));
    }
}

/// Appends `v[a..b]`.
fn push_range(out: &mut Vec<char>, v: &Vec<char>, a: usize, b: usize)
    requires
        a <= b <= v@.len(),
    ensures
        final(out)@ == old(out)@ + v@.subrange(a as int, b as int),
{
    let mut j: usize = a;
    proof {
        assert(out@ =~= old(out)@ + v@.subrange(a as int, a as int));
    }
    while j < b
        invariant
            a <= j <= b <= v@.len(),
            out@ == old(out)@ + v@.subrange(a as int, j as int),
        decreases b - j,
    {
        out.push(v[j]);
        proof {
            assert(v@.subrange(a as int, j as int + 1) =~= v@.subrange(a as int, j as int).push(
                v@[j as int],
            ));
            assert(out@ =~= old(out)@ + v@.subrange(a as int, j as int + 1));
        }
        j += 1;
    }
}

/// Appends the canonical text form of a 128-bit token.
fn push_uuid(out: &mut Vec<char>, t: u128)
    ensures
        final(out)@ == old(out)@ + ser_uuid(t as int),
{
    let mut drev: Vec<char> = Vec::new();
    let mut cur = t;
    let mut k: usize = 0;
    proof {
        assert(hex_rev(t as int, 32) =~= drev@ + hex_rev(cur as int, 32));
    }
    while k < 32
        invariant
            k <= 32,
            drev@.len() == k,
            hex_rev(t as int, 32) == drev@ + hex_rev(cur as int, (32 - k) as nat),
        decreases 32 - k,
    {
        let ghost prev = cur;
        let d = (cur % 16) as u8;
        drev.push(hex_digit_char(d));
        cur = cur / 16;
        proof {
            assert(hex_rev(prev as int, (32 - k) as nat) =~= seq![hex_digit(prev as int % 16)]
                + hex_rev(cur as int, (31 - k) as nat));
            assert(hex_rev(t as int, 32) =~= drev@ + hex_rev(cur as int, (31 - k) as nat));
        }
        k += 1;
    }
    proof {
        assert(hex_rev(cur as int, 0) =~= Seq::<char>::empty());
        assert(hex_rev(t as int, 32) =~= drev@);
    }
    let ghost h = uuid_chars(t as int);
    proof {
        assert(h =~= drev@.reverse());
        assert(forall|j: int| 0 <= j < 32 ==> h[j] == drev@[31 - j]);
    }
    let mut hex32: Vec<char> = Vec::new();
    let mut j: usize = 0;
    while j < 32
        invariant
            j <= 32,
            drev@.len() == 32,
            h == uuid_chars(t as int),
            h.len() == 32,
            forall|p: int| 0 <= p < 32 ==> h[p] == drev@[31 - p],
            hex32@ == h.take(j as int),
        decreases 32 - j,
    {
        hex32.push(drev[31 - j]);
        proof {
            assert(h.take(j as int + 1) =~= h.take(j as int).push(h[j as int]));
        }
        j += 1;
    }
    proof {
        assert(hex32@ =~= h);
    }
    push_range(out, &hex32, 0, 8);
    out.push('-');
    push_range(out, &hex32, 8, 12);
    out.push('-');
    push_range(out, &hex32, 12, 16);
    out.push('-');
    push_range(out, &hex32, 16, 20);
    out.push('-');
    push_range(out, &hex32, 20, 32);
    proof {
        assert(out@ =~= old(out)@ + ser_uuid(t as int));
    }
}

/// Appends `true` or `false`.
fn push_bool(out: &mut Vec<char>, b: bool)
    ensures
        final(out)@ == old(out)@ + ser_bool(b),
{
    if b {
        push_lit(out, "true");
    } else {
        push_lit(out, "false");
    }
}

/// Relies on `String::from_iter` (via `collect` on a character iterator):
/// the resulting string holds exactly the given characters in order.
#[verifier::external_body]
fn chars_to_string(v: &Vec<char>) -> (r: String)
    ensures
        r@ == v@,
{
    v.iter().collect()
}

/// `{"id":"...","name":"..."}`.
pub open spec fn ser_user(u: UserV) -> Seq<char> {
    "{\"id\":\""@ + ser_uuid(u.id as int) + "\",\"name\":"@ + ser_string(u.name) + "}"@
}

/// `{"title":"..."}`.
pub open spec fn ser_story_info(i: StoryInfoV) -> Seq<char> {
    "{\"title\":"@ + ser_string(i.title) + "}"@
}

/// `{"id":"...","info":{...}}`.
pub open spec fn ser_backlog_story(b: BacklogStoryV) -> Seq<char> {
    "{\"id\":\""@ + ser_uuid(b.id as int) + "\",\"info\":"@ + ser_story_info(b.info) + "}"@
}

/// Comma-separated story list body.
pub open spec fn ser_story_items(ss: Seq<BacklogStoryV>) -> Seq<char>
    decreases ss.len(),
{
    if ss.len() == 0 {
        Seq::empty()
    } else if ss.len() == 1 {
        ser_backlog_story(ss[0])
    } else {
        ser_story_items(ss.drop_last()) + seq![','] + ser_backlog_story(ss.last())
    }
}

/// `[story,story,...]`.
pub open spec fn ser_stories(ss: Seq<BacklogStoryV>) -> Seq<char> {
    seq!['['] + ser_story_items(ss) + seq![']']
}

/// An explicit estimate, or `null`.
pub open spec fn ser_opt_vote(e: Option<int>) -> Seq<char> {
    match e {
        Some(v) => dec_chars(v),
        None => "null"@,
    }
}

/// One action as a tagged JSON value: unit variants are bare strings,
/// the rest single-key objects.
pub open spec fn ser_action(a: ActionV) -> Seq<char> {
    match a {
        ActionV::PlayerJoined(u) => "{\"PlayerJoined\":"@ + ser_user(u) + "}"@,
        ActionV::PlayerLeft => "\"PlayerLeft\""@,
        ActionV::StoriesAdded(ss) => "{\"StoriesAdded\":"@ + ser_stories(ss) + "}"@,
        ActionV::StoryUpdated(id, info) => "{\"StoryUpdated\":[\""@ + ser_uuid(id as int)
            + "\","@ + ser_story_info(info) + "]}"@,
        ActionV::StoryPositionChanged(id, idx) => "{\"StoryPositionChanged\":[\""@ + ser_uuid(
            id as int,
        ) + "\","@ + dec_chars(idx) + "]}"@,
        ActionV::StoryRemoved(id) => "{\"StoryRemoved\":\""@ + ser_uuid(id as int) + "\"}"@,
        ActionV::VotingOpened(id) => "{\"VotingOpened\":\""@ + ser_uuid(id as int) + "\"}"@,
        ActionV::VotingClosed => "\"VotingClosed\""@,
        ActionV::VoteCasted(v) => "{\"VoteCasted\":"@ + dec_chars(v) + "}"@,
        ActionV::VotesRevealed => "\"VotesRevealed\""@,
        ActionV::VotesCleared => "\"VotesCleared\""@,
        ActionV::ResultsApproved(e) => "{\"ResultsApproved\":"@ + ser_opt_vote(e) + "}"@,
    }
}

/// `"Admin"` or `"Player"`.
pub open spec fn ser_role(r: PlayerRole) -> Seq<char> {
    match r {
        PlayerRole::Admin => "\"Admin\""@,
        PlayerRole::Player => "\"Player\""@,
    }
}

/// `{"user":{...},"role":"...","active":...}`.
pub open spec fn ser_player(p: PlayerV) -> Seq<char> {
    "{\"user\":"@ + ser_user(p.user) + ",\"role\":"@ + ser_role(p.role) + ",\"active\":"@
        + ser_bool(p.active) + "}"@
}

/// Body of the players object, keyed by user id.
pub open spec fn ser_player_items(ps: Seq<PlayerV>) -> Seq<char>
    decreases ps.len(),
{
    if ps.len() == 0 {
        Seq::empty()
    } else if ps.len() == 1 {
        ser_player_entry(ps[0])
    } else {
        ser_player_items(ps.drop_last()) + seq![','] + ser_player_entry(ps.last())
    }
}

pub open spec fn ser_player_entry(p: PlayerV) -> Seq<char> {
    seq!['"'] + ser_uuid(p.user.id as int) + "\":"@ + ser_player(p)
}

pub open spec fn ser_players(ps: Seq<PlayerV>) -> Seq<char> {
    seq!['{'] + ser_player_items(ps) + seq!['}']
}

/// Body of the backlog object, keyed by story id.
pub open spec fn ser_backlog_items(bs: Seq<BacklogStoryV>) -> Seq<char>
    decreases bs.len(),
{
    if bs.len() == 0 {
        Seq::empty()
    } else if bs.len() == 1 {
        ser_backlog_entry(bs[0])
    } else {
        ser_backlog_items(bs.drop_last()) + seq![','] + ser_backlog_entry(bs.last())
    }
}

pub open spec fn ser_backlog_entry(b: BacklogStoryV) -> Seq<char> {
    seq!['"'] + ser_uuid(b.id as int) + "\":"@ + ser_backlog_story(b)
}

pub open spec fn ser_backlog_map(bs: Seq<BacklogStoryV>) -> Seq<char> {
    seq!['{'] + ser_backlog_items(bs) + seq!['}']
}

/// `{"id":"...","info":{...},"estimate":N}`.
pub open spec fn ser_estimated_story(e: EstimatedStoryV) -> Seq<char> {
    "{\"id\":\""@ + ser_uuid(e.id as int) + "\",\"info\":"@ + ser_story_info(e.info)
        + ",\"estimate\":"@ + dec_chars(e.estimate) + "}"@
}

pub open spec fn ser_estimated_entry(e: EstimatedStoryV) -> Seq<char> {
    seq!['"'] + ser_uuid(e.id as int) + "\":"@ + ser_estimated_story(e)
}

/// Body of the estimated-stories object, keyed by story id.
pub open spec fn ser_estimated_items(es: Seq<EstimatedStoryV>) -> Seq<char>
    decreases es.len(),
{
    if es.len() == 0 {
        Seq::empty()
    } else if es.len() == 1 {
        ser_estimated_entry(es[0])
    } else {
        ser_estimated_items(es.drop_last()) + seq![','] + ser_estimated_entry(es.last())
    }
}

pub open spec fn ser_estimated_map(es: Seq<EstimatedStoryV>) -> Seq<char> {
    seq!['{'] + ser_estimated_items(es) + seq!['}']
}

pub open spec fn ser_vote_entry(v: VoteEntryV) -> Seq<char> {
    seq!['"'] + ser_uuid(v.user_id as int) + "\":"@ + dec_chars(v.vote)
}

/// Body of the votes object, keyed by user id.
pub open spec fn ser_vote_items(vs: Seq<VoteEntryV>) -> Seq<char>
    decreases vs.len(),
{
    if vs.len() == 0 {
        Seq::empty()
    } else if vs.len() == 1 {
        ser_vote_entry(vs[0])
    } else {
        ser_vote_items(vs.drop_last()) + seq![','] + ser_vote_entry(vs.last())
    }
}

pub open spec fn ser_votes(vs: Seq<VoteEntryV>) -> Seq<char> {
    seq!['{'] + ser_vote_items(vs) + seq!['}']
}

/// `{"id":"...","info":{...},"votes":{...},"votes_revealed":...}`.
pub open spec fn ser_selected(s: SelectedStoryV) -> Seq<char> {
    "{\"id\":\""@ + ser_uuid(s.id as int) + "\",\"info\":"@ + ser_story_info(s.info)
        + ",\"votes\":"@ + ser_votes(s.votes) + ",\"votes_revealed\":"@ + ser_bool(
        s.votes_revealed,
    ) + "}"@
}

pub open spec fn ser_opt_selected(o: Option<SelectedStoryV>) -> Seq<char> {
    match o {
        Some(s) => ser_selected(s),
        None => "null"@,
    }
}

/// One full session snapshot.
pub open spec fn ser_game(g: GameV) -> Seq<char> {
    "{\"id\":\""@ + ser_uuid(g.id as int) + "\",\"players\":"@ + ser_players(g.players)
        + ",\"backlog_stories\":"@ + ser_backlog_map(g.backlog) + ",\"estimated_stories\":"@
        + ser_estimated_map(g.estimated) + ",\"selected_story\":"@ + ser_opt_selected(
        g.selected,
    ) + "}"@
}

/// One protocol message.
pub open spec fn ser_event(e: AppEventV) -> Seq<char> {
    match e {
        AppEventV::CurrentState(g) => "{\"CurrentState\":"@ + ser_game(g) + "}"@,
        AppEventV::GameNotFound(id) => "{\"GameNotFound\":\""@ + ser_uuid(id as int) + "\"}"@,
        AppEventV::GameMessage(uid, a) => "{\"GameMessage\":[\""@ + ser_uuid(uid as int)
            + "\","@ + ser_action(a) + "]}"@,
    }
}

/// The characters of a string, as a vector.
fn str_to_chars(s: &str) -> (r: Vec<char>)
    ensures
        r@ == s@,
{
    let n = s.unicode_len();
    let mut r: Vec<char> = Vec::new();
    let mut i: usize = 0;
    while i < n
        invariant
            i <= n,
            n == s@.len(),
            r@ == s@.take(i as int),
        decreases n - i,
    {
        r.push(s.get_char(i));
        proof {
            assert(s@.take(i as int + 1) =~= s@.take(i as int).push(s@[i as int]));
        }
        i += 1;
    }
    proof {
        assert(s@.take(n as int) =~= s@);
    }
    r
}

fn push_user(out: &mut Vec<char>, u: &User)
    ensures
        final(out)@ == old(out)@ + ser_user(u@),
{
    push_lit(out, "{\"id\":\"");
    push_uuid(out, u.id.0);
    push_lit(out, "\",\"name\":");
    push_json_string(out, u.name.as_str());
    push_lit(out, "}");
    proof {
        assert(out@ =~= old(out)@ + ser_user(u@));
    }
}

fn push_story_info(out: &mut Vec<char>, i: &StoryInfo)
    ensures
        final(out)@ == old(out)@ + ser_story_info(i@),
{
    push_lit(out, "{\"title\":");
    push_json_string(out, i.title.as_str());
    push_lit(out, "}");
    proof {
        assert(out@ =~= old(out)@ + ser_story_info(i@));
    }
}

fn push_backlog_story(out: &mut Vec<char>, b: &BacklogStory)
    ensures
        final(out)@ == old(out)@ + ser_backlog_story(b@),
{
    push_lit(out, "{\"id\":\"");
    push_uuid(out, b.id.0);
    push_lit(out, "\",\"info\":");
    push_story_info(out, &b.info);
    push_lit(out, "}");
    proof {
        assert(out@ =~= old(out)@ + ser_backlog_story(b@));
    }
}

fn push_stories(out: &mut Vec<char>, ss: &Vec<BacklogStory>)
    ensures
        final(out)@ == old(out)@ + ser_stories(backlog_view(ss@)),
{
    out.push('[');
    let ghost sv = backlog_view(ss@);
    let mut i: usize = 0;
    proof {
        assert(out@ =~= old(out)@ + seq!['['] + ser_story_items(sv.take(0)));
    }
    while i < ss.len()
        invariant
            i <= ss.len(),
            sv == backlog_view(ss@),
            out@ == old(out)@ + seq!['['] + ser_story_items(sv.take(i as int)),
        decreases ss.len() - i,
    {
        if i > 0 {
            out.push(',');
        }
        push_backlog_story(out, &ss[i]);
        proof {
            assert(sv.take(i as int + 1).drop_last() =~= sv.take(i as int));
            assert(sv.take(i as int + 1).last() == sv[i as int]);
            assert(sv[i as int] == ss@[i as int]@);
            assert(out@ =~= old(out)@ + seq!['['] + ser_story_items(sv.take(i as int + 1)));
        }
        i += 1;
    }
    out.push(']');
    proof {
        assert(sv.take(ss@.len() as int) =~= sv);
        assert(out@ =~= old(out)@ + ser_stories(sv));
    }
}

fn push_vote_value(out: &mut Vec<char>, v: &Vote)
    ensures
        final(out)@ == old(out)@ + dec_chars(v@),
{
    let value = v.value();
    push_dec(out, value as u64);
}

/// One action as its wire form.
fn push_action(out: &mut Vec<char>, a: &GameAction)
    ensures
        final(out)@ == old(out)@ + ser_action(a@),
{
    match a {
        GameAction::PlayerJoined(u) => {
            push_lit(out, "{\"PlayerJoined\":");
            push_user(out, u);
            push_lit(out, "}");
        },
        GameAction::PlayerLeft => {
            push_lit(out, "\"PlayerLeft\"");
        },
        GameAction::StoriesAdded(ss) => {
            push_lit(out, "{\"StoriesAdded\":");
            push_stories(out, ss);
            push_lit(out, "}");
        },
        GameAction::StoryUpdated(id, info) => {
            push_lit(out, "{\"StoryUpdated\":[\"");
            push_uuid(out, id.0);
            push_lit(out, "\",");
            push_story_info(out, info);
            push_lit(out, "]}");
        },
        GameAction::StoryPositionChanged(id, idx) => {
            push_lit(out, "{\"StoryPositionChanged\":[\"");
            push_uuid(out, id.0);
            push_lit(out, "\",");
            push_dec(out, *idx as u64);
            push_lit(out, "]}");
        },
        GameAction::StoryRemoved(id) => {
            push_lit(out, "{\"StoryRemoved\":\"");
            push_uuid(out, id.0);
            push_lit(out, "\"}");
        },
        GameAction::VotingOpened(id) => {
            push_lit(out, "{\"VotingOpened\":\"");
            push_uuid(out, id.0);
            push_lit(out, "\"}");
        },
        GameAction::VotingClosed => {
            push_lit(out, "\"VotingClosed\"");
        },
        GameAction::VoteCasted(v) => {
            push_lit(out, "{\"VoteCasted\":");
            push_vote_value(out, v);
            push_lit(out, "}");
        },
        GameAction::VotesRevealed => {
            push_lit(out, "\"VotesRevealed\"");
        },
        GameAction::VotesCleared => {
            push_lit(out, "\"VotesCleared\"");
        },
        GameAction::ResultsApproved(e) => {
            push_lit(out, "{\"ResultsApproved\":");
            match e {
                Some(v) => push_vote_value(out, v),
                None => push_lit(out, "null"),
            }
            push_lit(out, "}");
        },
    }
    proof {
        assert(out@ =~= old(out)@ + ser_action(a@));
    }
}

fn push_player(out: &mut Vec<char>, p: &Player)
    ensures
        final(out)@ == old(out)@ + ser_player(p@),
{
    push_lit(out, "{\"user\":");
    push_user(out, &p.user);
    push_lit(out, ",\"role\":");
    match p.role {
        PlayerRole::Admin => push_lit(out, "\"Admin\""),
        PlayerRole::Player => push_lit(out, "\"Player\""),
    }
    push_lit(out, ",\"active\":");
    push_bool(out, p.active);
    push_lit(out, "}");
    proof {
        assert(out@ =~= old(out)@ + ser_player(p@));
    }
}

fn push_players(out: &mut Vec<char>, ps: &Vec<Player>)
    ensures
        final(out)@ == old(out)@ + ser_players(players_view(ps@)),
{
    out.push('{');
    let ghost pv = players_view(ps@);
    let mut i: usize = 0;
    proof {
        assert(out@ =~= old(out)@ + seq!['{'] + ser_player_items(pv.take(0)));
    }
    while i < ps.len()
        invariant
            i <= ps.len(),
            pv == players_view(ps@),
            out@ == old(out)@ + seq!['{'] + ser_player_items(pv.take(i as int)),
        decreases ps.len() - i,
    {
        if i > 0 {
            out.push(',');
        }
        out.push('"');
        push_uuid(out, ps[i].user.id.0);
        push_lit(out, "\":");
        push_player(out, &ps[i]);
        proof {
            assert(pv.take(i as int + 1).drop_last() =~= pv.take(i as int));
            assert(pv.take(i as int + 1).last() == pv[i as int]);
            assert(pv[i as int] == ps@[i as int]@);
            assert(out@ =~= old(out)@ + seq!['{'] + ser_player_items(pv.take(i as int + 1)));
        }
        i += 1;
    }
    out.push('}');
    proof {
        assert(pv.take(ps@.len() as int) =~= pv);
        assert(out@ =~= old(out)@ + ser_players(pv));
    }
}

fn push_backlog_map(out: &mut Vec<char>, bs: &Vec<BacklogStory>)
    ensures
        final(out)@ == old(out)@ + ser_backlog_map(backlog_view(bs@)),
{
    out.push('{');
    let ghost bv = backlog_view(bs@);
    let mut i: usize = 0;
    proof {
        assert(out@ =~= old(out)@ + seq!['{'] + ser_backlog_items(bv.take(0)));
    }
    while i < bs.len()
        invariant
            i <= bs.len(),
            bv == backlog_view(bs@),
            out@ == old(out)@ + seq!['{'] + ser_backlog_items(bv.take(i as int)),
        decreases bs.len() - i,
    {
        if i > 0 {
            out.push(',');
        }
        out.push('"');
        push_uuid(out, bs[i].id.0);
        push_lit(out, "\":");
        push_backlog_story(out, &bs[i]);
        proof {
            assert(bv.take(i as int + 1).drop_last() =~= bv.take(i as int));
            assert(bv.take(i as int + 1).last() == bv[i as int]);
            assert(bv[i as int] == bs@[i as int]@);
            assert(out@ =~= old(out)@ + seq!['{'] + ser_backlog_items(bv.take(i as int + 1)));
        }
        i += 1;
    }
    out.push('}');
    proof {
        assert(bv.take(bs@.len() as int) =~= bv);
        assert(out@ =~= old(out)@ + ser_backlog_map(bv));
    }
}

fn push_estimated_story(out: &mut Vec<char>, e: &EstimatedStory)
    ensures
        final(out)@ == old(out)@ + ser_estimated_story(e@),
{
    push_lit(out, "{\"id\":\"");
    push_uuid(out, e.id.0);
    push_lit(out, "\",\"info\":");
    push_story_info(out, &e.info);
    push_lit(out, ",\"estimate\":");
    push_vote_value(out, &e.estimate);
    push_lit(out, "}");
    proof {
        assert(out@ =~= old(out)@ + ser_estimated_story(e@));
    }
}

fn push_estimated_map(out: &mut Vec<char>, es: &Vec<EstimatedStory>)
    ensures
        final(out)@ == old(out)@ + ser_estimated_map(estimated_view(es@)),
{
    out.push('{');
    let ghost ev = estimated_view(es@);
    let mut i: usize = 0;
    proof {
        assert(out@ =~= old(out)@ + seq!['{'] + ser_estimated_items(ev.take(0)));
    }
    while i < es.len()
        invariant
            i <= es.len(),
            ev == estimated_view(es@),
            out@ == old(out)@ + seq!['{'] + ser_estimated_items(ev.take(i as int)),
        decreases es.len() - i,
    {
        if i > 0 {
            out.push(',');
        }
        out.push('"');
        push_uuid(out, es[i].id.0);
        push_lit(out, "\":");
        push_estimated_story(out, &es[i]);
        proof {
            assert(ev.take(i as int + 1).drop_last() =~= ev.take(i as int));
            assert(ev.take(i as int + 1).last() == ev[i as int]);
            assert(ev[i as int] == es@[i as int]@);
            assert(out@ =~= old(out)@ + seq!['{'] + ser_estimated_items(ev.take(i as int + 1)));
        }
        i += 1;
    }
    out.push('}');
    proof {
        assert(ev.take(es@.len() as int) =~= ev);
        assert(out@ =~= old(out)@ + ser_estimated_map(ev));
    }
}

fn push_selected(out: &mut Vec<char>, s: &SelectedStory)
    ensures
        final(out)@ == old(out)@ + ser_selected(s@),
{
    push_lit(out, "{\"id\":\"");
    push_uuid(out, s.id.0);
    push_lit(out, "\",\"info\":");
    push_story_info(out, &s.info);
    push_lit(out, ",\"votes\":");
    out.push('{');
    let ghost vv = s@.votes;
    let mut i: usize = 0;
    let ghost mid = out@;
    proof {
        assert(out@ =~= mid + ser_vote_items(vv.take(0)));
    }
    while i < s.votes.len()
        invariant
            i <= s.votes.len(),
            vv == s@.votes,
            out@ == mid + ser_vote_items(vv.take(i as int)),
        decreases s.votes.len() - i,
    {
        if i > 0 {
            out.push(',');
        }
        out.push('"');
        push_uuid(out, s.votes[i].user_id.0);
        push_lit(out, "\":");
        push_vote_value(out, &s.votes[i].vote);
        proof {
            assert(vv.take(i as int + 1).drop_last() =~= vv.take(i as int));
            assert(vv.take(i as int + 1).last() == vv[i as int]);
            assert(vv[i as int] == s.votes@[i as int]@);
            assert(out@ =~= mid + ser_vote_items(vv.take(i as int + 1)));
        }
        i += 1;
    }
    out.push('}');
    proof {
        assert(vv.take(s.votes@.len() as int) =~= vv);
    }
    push_lit(out, ",\"votes_revealed\":");
    push_bool(out, s.votes_revealed);
    push_lit(out, "}");
    proof {
        assert(out@ =~= old(out)@ + ser_selected(s@));
    }
}

/// One full session snapshot as its wire form.
#[verifier::rlimit(50)]
fn push_game(out: &mut Vec<char>, g: &Game)
    ensures
        final(out)@ == old(out)@ + ser_game(g@),
{
    push_lit(out, "{\"id\":\"");
    push_uuid(out, g.id.0);
    push_lit(out, "\",\"players\":");
    push_players(out, &g.players);
    push_lit(out, ",\"backlog_stories\":");
    push_backlog_map(out, &g.backlog_stories);
    push_lit(out, ",\"estimated_stories\":");
    push_estimated_map(out, &g.estimated_stories);
    push_lit(out, ",\"selected_story\":");
    match &g.selected_story {
        Some(s) => push_selected(out, s),
        None => push_lit(out, "null"),
    }
    push_lit(out, "}");
    proof {
        assert(out@ =~= old(out)@ + ser_game(g@));
    }
}

fn push_event(out: &mut Vec<char>, e: &AppEvent)
    ensures
        final(out)@ == old(out)@ + ser_event(e@),
{
    match e {
        AppEvent::CurrentState(g) => {
            push_lit(out, "{\"CurrentState\":");
            push_game(out, g);
            push_lit(out, "}");
        },
        AppEvent::GameNotFound(id) => {
            push_lit(out, "{\"GameNotFound\":\"");
            push_uuid(out, id.0);
            push_lit(out, "\"}");
        },
        AppEvent::GameMessage(uid, a) => {
            push_lit(out, "{\"GameMessage\":[\"");
            push_uuid(out, uid.0);
            push_lit(out, "\",");
            push_action(out, a);
            push_lit(out, "]}");
        },
    }
    proof {
        assert(out@ =~= old(out)@ + ser_event(e@));
    }
}

/// Serializes the current-state snapshot of a session.
pub fn snapshot_to_wire(g: &Game) -> (r: String)
    ensures
        r@ == ser_event(AppEventV::CurrentState(g@)),
{
    let mut out: Vec<char> = Vec::new();
    push_lit(&mut out, "{\"CurrentState\":");
    push_game(&mut out, g);
    push_lit(&mut out, "}");
    proof {
        assert(out@ =~= ser_event(AppEventV::CurrentState(g@)));
    }
    chars_to_string(&out)
}



/// Whether `pat` occurs in `s` starting at `pos`.
pub open spec fn begins_with(s: Seq<char>, pos: int, pat: Seq<char>) -> bool {
    &&& pos >= 0
    &&& pos + pat.len() <= s.len()
    &&& s.subrange(pos, pos + pat.len() as int) == pat
}

/// Whether `c` is a decimal digit character.
pub open spec fn is_dec_digit(c: char) -> bool {
    c == '0' || c == '1' || c == '2' || c == '3' || c == '4' || c == '5' || c == '6' || c == '7'
        || c == '8' || c == '9'
}

proof fn lemma_hex_digit_inj(d1: int, d2: int)
    requires
        0 <= d1 < 16,
        0 <= d2 < 16,
        hex_digit(d1) == hex_digit(d2),
    ensures
        d1 == d2,
{
}

/// A canonical decimal is non-empty, all digits, with no leading zero.
proof fn lemma_dec_chars_props(n: int)
    requires
        n >= 0,
    ensures
        dec_chars(n).len() >= 1,
        forall|i: int| 0 <= i < dec_chars(n).len() ==> is_dec_digit(#[trigger] dec_chars(n)[i]),
        n >= 1 ==> dec_chars(n)[0] != '0',
    decreases n,
{
    if n >= 10 {
        lemma_dec_chars_props(n / 10);
        assert(dec_chars(n) == dec_chars(n / 10).push(hex_digit(n % 10)));
        assert forall|i: int| 0 <= i < dec_chars(n).len() implies is_dec_digit(
            #[trigger] dec_chars(n)[i],
        ) by {
            if i < dec_chars(n / 10).len() {
                assert(dec_chars(n)[i] == dec_chars(n / 10)[i]);
            } else {
                assert(dec_chars(n)[i] == hex_digit(n % 10));
            }
        }
        assert(dec_chars(n)[0] == dec_chars(n / 10)[0]);
    }
}

/// The decimal form is injective.
proof fn lemma_dec_chars_inj(a: int, b: int)
    requires
        a >= 0,
        b >= 0,
        dec_chars(a) == dec_chars(b),
    ensures
        a == b,
    decreases a,
{
    if a < 10 && b < 10 {
        assert(dec_chars(a)[0] == hex_digit(a));
        assert(dec_chars(b)[0] == hex_digit(b));
        lemma_hex_digit_inj(a, b);
    } else if a < 10 {
        lemma_dec_chars_props(b / 10);
        assert(dec_chars(b).len() == dec_chars(b / 10).len() + 1);
    } else if b < 10 {
        lemma_dec_chars_props(a / 10);
        assert(dec_chars(a).len() == dec_chars(a / 10).len() + 1);
    } else {
        assert(dec_chars(a).last() == hex_digit(a % 10));
        assert(dec_chars(b).last() == hex_digit(b % 10));
        lemma_hex_digit_inj(a % 10, b % 10);
        assert(dec_chars(a).drop_last() =~= dec_chars(a / 10));
        assert(dec_chars(b).drop_last() =~= dec_chars(b / 10));
        lemma_dec_chars_inj(a / 10, b / 10);
    }
}

/// A shorter decimal that is a prefix of a longer one names a value no
/// larger.
proof fn lemma_dec_prefix_value(a: int, b: int, k: int)
    requires
        a >= 0,
        b >= 0,
        1 <= k <= dec_chars(b).len(),
        dec_chars(a) == dec_chars(b).take(k),
    ensures
        a <= b,
    decreases b,
{
    if k == dec_chars(b).len() {
        assert(dec_chars(b).take(k) =~= dec_chars(b));
        lemma_dec_chars_inj(a, b);
    } else {
        lemma_dec_chars_props(b);
        assert(b >= 10);
        assert(dec_chars(b) == dec_chars(b / 10).push(hex_digit(b % 10)));
        assert(dec_chars(b).take(k) =~= dec_chars(b / 10).take(k));
        lemma_dec_prefix_value(a, b / 10, k);
    }
}

/// A text that begins with `a + b` begins with `a`, and with `b` right
/// after it.
proof fn lemma_begins_with_concat(s: Seq<char>, pos: int, a: Seq<char>, b: Seq<char>)
    requires
        begins_with(s, pos, a + b),
    ensures
        begins_with(s, pos, a),
        begins_with(s, pos + a.len(), b),
{
    assert(forall|j: int|
        0 <= j < (a + b).len() ==> #[trigger] s[pos + j] == (a + b)[j]) by {
        assert(forall|j: int|
            0 <= j < (a + b).len() ==> #[trigger] s.subrange(pos, pos + (a + b).len() as int)[j]
                == s[pos + j]);
    }
    assert(s.subrange(pos, pos + a.len() as int) =~= a);
    assert forall|j: int| 0 <= j < b.len() implies s[pos + a.len() + j] == #[trigger] b[j] by {
        assert(s[pos + (a.len() + j)] == (a + b)[a.len() + j]);
    }
    assert(s.subrange(pos + a.len() as int, pos + a.len() + b.len() as int) =~= b);
}

/// Characters with the same scalar value are the same character.
proof fn lemma_char_eq(a: char, b: char)
    requires
        a as u32 == b as u32,
    ensures
        a == b,
{
}

/// Consumes exactly `lit` at `pos`.
fn eat_lit(s: &Vec<char>, pos: usize, lit: &str) -> (r: Option<usize>)
    ensures
        r matches Some(p) ==> pos <= p <= s@.len() && s@.subrange(pos as int, p as int) == lit@,
        r is None ==> !begins_with(s@, pos as int, lit@),
{
    let n = lit.unicode_len();
    let len = s.len();
    if pos > len || n > len - pos {
        return None;
    }
    let mut i: usize = 0;
    while i < n
        invariant
            i <= n,
            n == lit@.len(),
            len == s@.len(),
            pos + n <= len,
            forall|j: int| 0 <= j < i ==> s@[pos + j] == lit@[j],
        decreases n - i,
    {
        if s[pos + i] != lit.get_char(i) {
            proof {
                if begins_with(s@, pos as int, lit@) {
                    assert(s@[pos + i] == s@.subrange(pos as int, pos + lit@.len() as int)[
                        i as int]);
                }
            }
            return None;
        }
        i += 1;
    }
    proof {
        assert(s@.subrange(pos as int, (pos + n) as int) =~= lit@);
    }
    Some(pos + n)
}

/// The value of a lowercase hexadecimal digit character.
fn hex_val(c: char) -> (r: Option<u8>)
    ensures
        r matches Some(h) ==> h < 16 && c == hex_digit(h as int),
        r is None ==> forall|d: int| 0 <= d < 16 ==> c != hex_digit(d),
{
    if c == '0' {
        Some(0)
    } else if c == '1' {
        Some(1)
    } else if c == '2' {
        Some(2)
    } else if c == '3' {
        Some(3)
    } else if c == '4' {
        Some(4)
    } else if c == '5' {
        Some(5)
    } else if c == '6' {
        Some(6)
    } else if c == '7' {
        Some(7)
    } else if c == '8' {
        Some(8)
    } else if c == '9' {
        Some(9)
    } else if c == 'a' {
        Some(10)
    } else if c == 'b' {
        Some(11)
    } else if c == 'c' {
        Some(12)
    } else if c == 'd' {
        Some(13)
    } else if c == 'e' {
        Some(14)
    } else if c == 'f' {
        Some(15)
    } else {
        None
    }
}

/// The value of a decimal digit character.
fn dec_val(c: char) -> (r: Option<u8>)
    ensures
        r matches Some(h) ==> h < 10 && c == hex_digit(h as int),
        r is None ==> !is_dec_digit(c),
{
    if c == '0' {
        Some(0)
    } else if c == '1' {
        Some(1)
    } else if c == '2' {
        Some(2)
    } else if c == '3' {
        Some(3)
    } else if c == '4' {
        Some(4)
    } else if c == '5' {
        Some(5)
    } else if c == '6' {
        Some(6)
    } else if c == '7' {
        Some(7)
    } else if c == '8' {
        Some(8)
    } else if c == '9' {
        Some(9)
    } else {
        None
    }
}

/// Escaping a prefix of `v` yields a prefix of escaping `v`, and the
/// escape unit of the next character follows it immediately.
proof fn lemma_esc_string_prefix(v: Seq<char>, m: int)
    requires
        0 <= m <= v.len(),
    ensures
        esc_string(v.take(m)).len() <= esc_string(v).len(),
        esc_string(v).subrange(0, esc_string(v.take(m)).len() as int) == esc_string(v.take(m)),
        m < v.len() ==> esc_string(v.take(m)).len() + esc_char(v[m]).len() <= esc_string(
            v,
        ).len() && esc_string(v).subrange(
            esc_string(v.take(m)).len() as int,
            esc_string(v.take(m)).len() + esc_char(v[m]).len() as int,
        ) == esc_char(v[m]),
    decreases v.len() - m,
{
    if m == v.len() {
        assert(v.take(m) =~= v);
    } else {
        lemma_esc_string_prefix(v, m + 1);
        assert(v.take(m + 1).drop_last() =~= v.take(m));
        assert(v.take(m + 1).last() == v[m]);
        assert(esc_string(v.take(m + 1)) == esc_string(v.take(m)) + esc_char(v[m]));
        let lm = esc_string(v.take(m)).len() as int;
        let lm1 = esc_string(v.take(m + 1)).len() as int;
        assert(esc_string(v).subrange(0, lm) =~= esc_string(v).subrange(0, lm1).subrange(0, lm));
        assert(esc_string(v).subrange(0, lm1).subrange(0, lm) =~= esc_string(v.take(m)));
        assert(esc_string(v).subrange(lm, lm1) =~= esc_string(v).subrange(0, lm1).subrange(
            lm,
            lm1,
        ));
        assert(esc_string(v).subrange(0, lm1).subrange(lm, lm1) =~= esc_char(v[m]));
    }
}

/// Where the pieces of a serialized string sit in a text that begins
/// with it: the quotes, the escaped prefix of `v.take(m)`, and the
/// escape unit of `v[m]`.
proof fn lemma_string_region(s: Seq<char>, pos: int, v: Seq<char>, m: int)
    requires
        begins_with(s, pos, ser_string(v)),
        0 <= m <= v.len(),
    ensures
        pos + 1 + esc_string(v).len() + 1 <= s.len(),
        esc_string(v.take(m)).len() <= esc_string(v).len(),
        s[pos] == '"',
        s[pos + 1 + esc_string(v).len() as int] == '"',
        s.subrange(pos + 1, pos + 1 + (esc_string(v.take(m)).len() as int)) == esc_string(
            v.take(m),
        ),
        m < v.len() ==> {
            let off = pos + 1 + esc_string(v.take(m)).len() as int;
            &&& off + esc_char(v[m]).len() <= pos + 1 + esc_string(v).len()
            &&& s.subrange(off, off + esc_char(v[m]).len() as int) == esc_char(v[m])
        },
{
    lemma_esc_string_prefix(v, m);
    assert(ser_string(v).len() == esc_string(v).len() + 2);
    assert(forall|j: int|
        0 <= j < ser_string(v).len() ==> #[trigger] s[pos + j] == ser_string(v)[j]) by {
        assert(forall|j: int|
            0 <= j < ser_string(v).len() ==> #[trigger] s.subrange(
                pos,
                pos + ser_string(v).len() as int,
            )[j] == s[pos + j]);
    }
    assert(s[pos] == ser_string(v)[0]);
    assert(s[pos + 1 + esc_string(v).len() as int] == ser_string(v)[1 + esc_string(v).len() as int]);
    assert forall|j: int| 0 <= j < esc_string(v).len() implies s[pos + 1 + j]
        == #[trigger] esc_string(v)[j] by {
        assert(s[pos + (1 + j)] == ser_string(v)[1 + j]);
    }
    assert(s.subrange(pos + 1, pos + 1 + esc_string(v).len() as int) =~= esc_string(v));
    let lm = esc_string(v.take(m)).len() as int;
    assert(s.subrange(pos + 1, pos + 1 + lm) =~= esc_string(v).subrange(0, lm));
    if m < v.len() {
        let off = pos + 1 + lm;
        let ul = esc_char(v[m]).len() as int;
        assert(s.subrange(off, off + ul) =~= esc_string(v).subrange(lm, lm + ul));
    }
}

/// The state of a string parse that has consumed the open quote and the
/// escape units of `acc`: either the whole body is consumed and the
/// closing quote is next, or the escape unit of the next character of
/// `v2` is next.
proof fn lemma_unit_at(s: Seq<char>, pos: int, i: int, acc: Seq<char>, v2: Seq<char>)
    requires
        begins_with(s, pos, ser_string(v2)),
        acc.len() <= v2.len(),
        acc == v2.take(acc.len() as int),
        pos + 1 <= i <= s.len(),
        s.subrange(pos + 1, i) == esc_string(acc),
    ensures
        ({
            let m = acc.len() as int;
            &&& i == pos + 1 + esc_string(v2.take(m)).len()
            &&& (m == v2.len() ==> i == pos + 1 + esc_string(v2).len() && i < s.len() && s[i]
                == '"')
            &&& (m < v2.len() ==> i + esc_char(v2[m]).len() + 1 <= s.len() && s.subrange(
                i,
                i + esc_char(v2[m]).len() as int,
            ) == esc_char(v2[m]) && s[i] == esc_char(v2[m])[0])
        }),
{
    let m = acc.len() as int;
    lemma_string_region(s, pos, v2, m);
    assert(i - (pos + 1) == esc_string(acc).len());
    assert(esc_string(acc) == esc_string(v2.take(m)));
    if m == v2.len() {
        assert(v2.take(m) =~= v2);
    } else {
        let ul = esc_char(v2[m]).len() as int;
        assert(s[i] == s.subrange(i, i + ul)[0]);
    }
}

/// At a `\u` escape the next character of `v2` is a control character
/// without a short form, and the six unit characters are fixed by it.
proof fn lemma_u_escape_unit(s: Seq<char>, pos: int, i: int, acc: Seq<char>, v2: Seq<char>)
    requires
        begins_with(s, pos, ser_string(v2)),
        acc.len() <= v2.len(),
        acc == v2.take(acc.len() as int),
        pos + 1 <= i <= s.len(),
        s.subrange(pos + 1, i) == esc_string(acc),
        i < s.len(),
        s[i] == '\\',
        i + 1 < s.len(),
        s[i + 1] == 'u',
    ensures
        ({
            let m = acc.len() as int;
            let x = v2[m] as u32;
            &&& m < v2.len()
            &&& x < 0x20
            &&& v2[m] != '"' && v2[m] != '\\' && v2[m] != '\u{8}' && v2[m] != '\u{9}' && v2[m]
                != '\u{A}' && v2[m] != '\u{C}' && v2[m] != '\u{D}'
            &&& x != 8 && x != 9 && x != 0xA && x != 0xC && x != 0xD
            &&& esc_char(v2[m]).len() == 6
            &&& i + 7 <= s.len()
            &&& s[i + 2] == '0' && s[i + 3] == '0'
            &&& s[i + 4] == hex_digit(x as int / 16)
            &&& s[i + 5] == hex_digit(x as int % 16)
            &&& 0 <= x as int / 16 < 16
            &&& 0 <= x as int % 16 < 16
        }),
{
    let m = acc.len() as int;
    lemma_unit_at(s, pos, i, acc, v2);
    if m == v2.len() {
        assert(s[i] == '"');
        assert(false);
    }
    assert(s[i] == esc_char(v2[m])[0]);
    if !(v2[m] == '"' || v2[m] == '\\' || (v2[m] as u32) < 0x20) {
        assert(esc_char(v2[m])[0] == v2[m]);
        assert(false);
    }
    let ul = esc_char(v2[m]).len() as int;
    assert(s[i + 1] == s.subrange(i, i + ul)[1]);
    if v2[m] == '"' || v2[m] == '\\' || v2[m] == '\u{8}' || v2[m] == '\u{9}' || v2[m] == '\u{A}'
        || v2[m] == '\u{C}' || v2[m] == '\u{D}' {
        assert(esc_char(v2[m])[1] != 'u');
        assert(false);
    }
    assert(s[i + 2] == s.subrange(i, i + ul)[2]);
    assert(s[i + 3] == s.subrange(i, i + ul)[3]);
    assert(s[i + 4] == s.subrange(i, i + ul)[4]);
    assert(s[i + 5] == s.subrange(i, i + ul)[5]);
    let x = v2[m] as u32;
    if x == 8 {
        lemma_char_eq(v2[m], '\u{8}');
    }
    if x == 9 {
        lemma_char_eq(v2[m], '\u{9}');
    }
    if x == 0xA {
        lemma_char_eq(v2[m], '\u{A}');
    }
    if x == 0xC {
        lemma_char_eq(v2[m], '\u{C}');
    }
    if x == 0xD {
        lemma_char_eq(v2[m], '\u{D}');
    }
}

/// Parses a canonical JSON string at `pos`.  Strict and complete: an
/// accepted span is exactly the serialization of the result, and a text
/// that begins with a serialized string is accepted up to exactly its
/// length.
fn parse_string(s: &Vec<char>, pos: usize) -> (r: Option<(String, usize)>)
    ensures
        r matches Some((v, p)) ==> pos < p <= s@.len() && s@.subrange(pos as int, p as int)
            == ser_string(v@),
        forall|v2: Seq<char>| #![trigger ser_string(v2)]
            begins_with(s@, pos as int, ser_string(v2)) ==> (r matches Some((v, p)) && p == pos
                + ser_string(v2).len()),
{
    if pos >= s.len() {
        proof {
            assert forall|v2: Seq<char>| !begins_with(s@, pos as int, ser_string(v2)) by {
                if begins_with(s@, pos as int, ser_string(v2)) {
                    lemma_string_region(s@, pos as int, v2, 0);
                }
            }
        }
        return None;
    }
    if s[pos] != '"' {
        proof {
            assert forall|v2: Seq<char>| !begins_with(s@, pos as int, ser_string(v2)) by {
                if begins_with(s@, pos as int, ser_string(v2)) {
                    lemma_string_region(s@, pos as int, v2, 0);
                }
            }
        }
        return None;
    }
    let mut acc: Vec<char> = Vec::new();
    let mut i: usize = pos + 1;
    proof {
        assert(s@.subrange(pos as int + 1, pos as int + 1) =~= esc_string(acc@));
        assert forall|v2: Seq<char>| #![trigger ser_string(v2)]
            begins_with(s@, pos as int, ser_string(v2)) implies (acc@.len() <= v2.len() && acc@
            == v2.take(acc@.len() as int)) by {
            assert(v2.take(0) =~= Seq::<char>::empty());
            assert(acc@ =~= Seq::<char>::empty());
        }
    }
    while i < s.len()
        invariant
            pos + 1 <= i <= s@.len(),
            pos < s@.len(),
            s@[pos as int] == '"',
            s@.subrange(pos as int + 1, i as int) == esc_string(acc@),
            forall|v2: Seq<char>| #![trigger ser_string(v2)]
                begins_with(s@, pos as int, ser_string(v2)) ==> (acc@.len() <= v2.len() && acc@
                    == v2.take(acc@.len() as int)),
        decreases s@.len() - i,
    {
        let c = s[i];
        if c == '"' {
            let st = chars_to_string(&acc);
            proof {
                assert(s@.subrange(pos as int, i as int + 1) =~= seq!['"'] + esc_string(acc@)
                    + seq!['"']);
                assert forall|v2: Seq<char>|
                    begins_with(s@, pos as int, ser_string(v2)) implies i + 1 == pos
                    + ser_string(v2).len() by {
                    let m = acc@.len() as int;
                    lemma_unit_at(s@, pos as int, i as int, acc@, v2);
                    if m < v2.len() {
                        if v2[m] == '"' || v2[m] == '\\' || (v2[m] as u32) < 0x20 {
                            assert(esc_char(v2[m])[0] == '\\');
                        } else {
                            assert(esc_char(v2[m])[0] == v2[m]);
                        }
                        assert(false);
                    }
                    assert(ser_string(v2).len() == esc_string(v2).len() + 2);
                }
            }
            return Some((st, i + 1));
        } else if c == '\\' {
            if s.len() - i < 2 {
                proof {
                    assert forall|v2: Seq<char>| !begins_with(s@, pos as int, ser_string(v2)) by {
                        if begins_with(s@, pos as int, ser_string(v2)) {
                            let m = acc@.len() as int;
                            lemma_unit_at(s@, pos as int, i as int, acc@, v2);
                            if m == v2.len() {
                                assert(s@[i as int] == '"');
                                assert(false);
                            }
                            if !(v2[m] == '"' || v2[m] == '\\' || (v2[m] as u32) < 0x20) {
                                assert(esc_char(v2[m])[0] == v2[m]);
                                assert(false);
                            }
                            assert(esc_char(v2[m]).len() >= 2);
                        }
                    }
                }
                return None;
            }
            let e = s[i + 1];
            let ghost acc0 = acc@;
            if e == '"' || e == '\\' || e == 'b' || e == 't' || e == 'n' || e == 'f' || e == 'r' {
                let c2: char = if e == '"' {
                    '"'
                } else if e == '\\' {
                    '\\'
                } else if e == 'b' {
                    '\u{8}'
                } else if e == 't' {
                    '\u{9}'
                } else if e == 'n' {
                    '\u{A}'
                } else if e == 'f' {
                    '\u{C}'
                } else {
                    '\u{D}'
                };
                acc.push(c2);
                proof {
                    assert(acc@.drop_last() =~= acc0);
                    assert(s@.subrange(i as int, i as int + 2) =~= esc_char(c2));
                    assert(esc_string(acc@) =~= esc_string(acc0) + esc_char(c2));
                    assert(s@.subrange(pos as int + 1, i as int + 2) =~= s@.subrange(
                        pos as int + 1,
                        i as int,
                    ) + s@.subrange(i as int, i as int + 2));
                    assert forall|v2: Seq<char>| #![trigger ser_string(v2)]
                        begins_with(s@, pos as int, ser_string(v2)) implies (acc@.len()
                        <= v2.len() && acc@ == v2.take(acc@.len() as int)) by {
                        let m = acc0.len() as int;
                        lemma_unit_at(s@, pos as int, i as int, acc0, v2);
                        if m == v2.len() {
                            assert(s@[i as int] == '"');
                            assert(false);
                        }
                        if !(v2[m] == '"' || v2[m] == '\\' || (v2[m] as u32) < 0x20) {
                            assert(esc_char(v2[m])[0] == v2[m]);
                            assert(false);
                        }
                        let ul = esc_char(v2[m]).len() as int;
                        assert(v2[m] == c2) by {
                            if (v2[m] as u32) < 0x20 && v2[m] != '\u{8}' && v2[m] != '\u{9}'
                                && v2[m] != '\u{A}' && v2[m] != '\u{C}' && v2[m] != '\u{D}' {
                                assert(s@[i as int + 1] == s@.subrange(i as int, i as int + ul)[
                                    1]);
                                assert(esc_char(v2[m])[1] == 'u');
                                assert(false);
                            }
                            assert(s@[i as int + 1] == s@.subrange(i as int, i as int + ul)[1]);
                            assert(esc_char(v2[m])[1] == e);
                        }
                        assert(v2.take(m + 1) =~= v2.take(m).push(v2[m]));
                        assert(acc@ =~= v2.take(m + 1));
                    }
                }
                i += 2;
            } else if e == 'u' {
                if s.len() - i < 6 {
                    proof {
                        assert forall|v2: Seq<char>| !begins_with(
                            s@,
                            pos as int,
                            ser_string(v2),
                        ) by {
                            if begins_with(s@, pos as int, ser_string(v2)) {
                                lemma_u_escape_unit(s@, pos as int, i as int, acc0, v2);
                            }
                        }
                    }
                    return None;
                }
                if s[i + 2] != '0' || s[i + 3] != '0' {
                    proof {
                        assert forall|v2: Seq<char>| !begins_with(
                            s@,
                            pos as int,
                            ser_string(v2),
                        ) by {
                            if begins_with(s@, pos as int, ser_string(v2)) {
                                lemma_u_escape_unit(s@, pos as int, i as int, acc0, v2);
                            }
                        }
                    }
                    return None;
                }
                let d1 = hex_val(s[i + 4]);
                let d2 = hex_val(s[i + 5]);
                let (h, l) = match (d1, d2) {
                    (Some(h), Some(l)) => (h, l),
                    _ => {
                        proof {
                            assert forall|v2: Seq<char>| !begins_with(
                                s@,
                                pos as int,
                                ser_string(v2),
                            ) by {
                                if begins_with(s@, pos as int, ser_string(v2)) {
                                    lemma_u_escape_unit(s@, pos as int, i as int, acc0, v2);
                                }
                            }
                        }
                        return None;
                    },
                };
                let v: u8 = h * 16 + l;
                if v >= 0x20 {
                    proof {
                        assert forall|v2: Seq<char>| !begins_with(
                            s@,
                            pos as int,
                            ser_string(v2),
                        ) by {
                            if begins_with(s@, pos as int, ser_string(v2)) {
                                lemma_u_escape_unit(s@, pos as int, i as int, acc0, v2);
                                let m = acc0.len() as int;
                                let x = v2[m] as u32;
                                lemma_hex_digit_inj(h as int, x as int / 16);
                                lemma_hex_digit_inj(l as int, x as int % 16);
                            }
                        }
                    }
                    return None;
                }
                if v == 8 || v == 9 || v == 0xA || v == 0xC || v == 0xD {
                    proof {
                        assert forall|v2: Seq<char>| !begins_with(
                            s@,
                            pos as int,
                            ser_string(v2),
                        ) by {
                            if begins_with(s@, pos as int, ser_string(v2)) {
                                lemma_u_escape_unit(s@, pos as int, i as int, acc0, v2);
                                let m = acc0.len() as int;
                                let x = v2[m] as u32;
                                lemma_hex_digit_inj(h as int, x as int / 16);
                                lemma_hex_digit_inj(l as int, x as int % 16);
                                assert(x == v as u32);
                            }
                        }
                    }
                    return None;
                }
                let c2 = v as char;
                acc.push(c2);
                proof {
                    assert(c2 as u32 == v as u32);
                    assert(v as int / 16 == h as int && v as int % 16 == l as int);
                    assert(esc_char(c2) =~= seq!['\\', 'u', '0', '0', hex_digit(h as int),
                        hex_digit(l as int)]);
                    assert(s@.subrange(i as int, i as int + 6) =~= esc_char(c2));
                    assert(acc@.drop_last() =~= acc0);
                    assert(esc_string(acc@) =~= esc_string(acc0) + esc_char(c2));
                    assert(s@.subrange(pos as int + 1, i as int + 6) =~= s@.subrange(
                        pos as int + 1,
                        i as int,
                    ) + s@.subrange(i as int, i as int + 6));
                    assert forall|v2: Seq<char>| #![trigger ser_string(v2)]
                        begins_with(s@, pos as int, ser_string(v2)) implies (acc@.len()
                        <= v2.len() && acc@ == v2.take(acc@.len() as int)) by {
                        lemma_u_escape_unit(s@, pos as int, i as int, acc0, v2);
                        let m = acc0.len() as int;
                        let x = v2[m] as u32;
                        lemma_hex_digit_inj(h as int, x as int / 16);
                        lemma_hex_digit_inj(l as int, x as int % 16);
                        assert(x == v as u32);
                        assert(v2[m] as u32 == c2 as u32);
                        lemma_char_eq(v2[m], c2);
                        assert(v2.take(m + 1) =~= v2.take(m).push(v2[m]));
                        assert(acc@ =~= v2.take(m + 1));
                    }
                }
                i += 6;
            } else {
                proof {
                    assert forall|v2: Seq<char>| !begins_with(s@, pos as int, ser_string(v2)) by {
                        if begins_with(s@, pos as int, ser_string(v2)) {
                            let m = acc0.len() as int;
                            lemma_unit_at(s@, pos as int, i as int, acc0, v2);
                            if m == v2.len() {
                                assert(s@[i as int] == '"');
                                assert(false);
                            }
                            if !(v2[m] == '"' || v2[m] == '\\' || (v2[m] as u32) < 0x20) {
                                assert(esc_char(v2[m])[0] == v2[m]);
                                assert(false);
                            }
                            let ul = esc_char(v2[m]).len() as int;
                            assert(s@[i as int + 1] == s@.subrange(i as int, i as int + ul)[1]);
                            if (v2[m] as u32) < 0x20 && v2[m] != '\u{8}' && v2[m] != '\u{9}'
                                && v2[m] != '\u{A}' && v2[m] != '\u{C}' && v2[m] != '\u{D}' {
                                assert(esc_char(v2[m])[1] == 'u');
                            } else {
                                assert(e == esc_char(v2[m])[1]);
                            }
                        }
                    }
                }
                return None;
            }
        } else {
            let v = c as u32;
            if v < 0x20 {
                proof {
                    assert forall|v2: Seq<char>| !begins_with(s@, pos as int, ser_string(v2)) by {
                        if begins_with(s@, pos as int, ser_string(v2)) {
                            let m = acc@.len() as int;
                            lemma_unit_at(s@, pos as int, i as int, acc@, v2);
                            if m == v2.len() {
                                assert(s@[i as int] == '"');
                            } else {
                                if v2[m] == '"' || v2[m] == '\\' || (v2[m] as u32) < 0x20 {
                                    assert(esc_char(v2[m])[0] == '\\');
                                } else {
                                    assert(esc_char(v2[m])[0] == v2[m]);
                                }
                            }
                        }
                    }
                }
                return None;
            }
            let ghost acc0 = acc@;
            acc.push(c);
            proof {
                assert(esc_char(c) =~= seq![c]);
                assert(acc@.drop_last() =~= acc0);
                assert(esc_string(acc@) =~= esc_string(acc0) + esc_char(c));
                assert(s@.subrange(pos as int + 1, i as int + 1) =~= s@.subrange(
                    pos as int + 1,
                    i as int,
                ) + seq![c]);
                assert forall|v2: Seq<char>| #![trigger ser_string(v2)]
                    begins_with(s@, pos as int, ser_string(v2)) implies (acc@.len() <= v2.len()
                    && acc@ == v2.take(acc@.len() as int)) by {
                    let m = acc0.len() as int;
                    lemma_unit_at(s@, pos as int, i as int, acc0, v2);
                    if m == v2.len() {
                        assert(s@[i as int] == '"');
                        assert(false);
                    }
                    assert(v2[m] == c) by {
                        if v2[m] == '"' || v2[m] == '\\' || (v2[m] as u32) < 0x20 {
                            assert(esc_char(v2[m])[0] == '\\');
                            assert(false);
                        }
                        assert(esc_char(v2[m])[0] == v2[m]);
                    }
                    assert(v2.take(m + 1) =~= v2.take(m).push(v2[m]));
                    assert(acc@ =~= v2.take(m + 1));
                }
            }
            i += 1;
        }
    }
    proof {
        assert forall|v2: Seq<char>| !begins_with(s@, pos as int, ser_string(v2)) by {
            if begins_with(s@, pos as int, ser_string(v2)) {
                let m = acc@.len() as int;
                lemma_unit_at(s@, pos as int, i as int, acc@, v2);
                if m == v2.len() {
                    assert(i < s@.len());
                } else {
                    assert(i + esc_char(v2[m]).len() + 1 <= s@.len());
                }
            }
        }
    }
    None
}

/// Number of hyphens among the first `k` positions of a token's text.
pub open spec fn nhyph(k: int) -> int {
    (if k > 8 {
        1int
    } else {
        0int
    }) + (if k > 13 {
        1int
    } else {
        0int
    }) + (if k > 18 {
        1int
    } else {
        0int
    }) + (if k > 23 {
        1int
    } else {
        0int
    })
}

/// `16^k`.
pub open spec fn pow16(k: nat) -> int
    decreases k,
{
    if k == 0 {
        1
    } else {
        16 * pow16((k - 1) as nat)
    }
}

proof fn lemma_pow16_pos(k: nat)
    ensures
        pow16(k) >= 1,
    decreases k,
{
    if k > 0 {
        lemma_pow16_pos((k - 1) as nat);
    }
}

proof fn lemma_pow16_mono(a: nat, b: nat)
    requires
        a <= b,
    ensures
        pow16(a) <= pow16(b),
    decreases b,
{
    if a < b {
        lemma_pow16_mono(a, (b - 1) as nat);
        lemma_pow16_pos((b - 1) as nat);
        assert(pow16(b) == 16 * pow16((b - 1) as nat));
    }
}

proof fn lemma_pow16_31()
    ensures
        pow16(31) == 0x10000000000000000000000000000000int,
{
    assert(pow16(0) == 0x1int);
    assert(pow16(1) == 0x10int);
    assert(pow16(2) == 0x100int);
    assert(pow16(3) == 0x1000int);
    assert(pow16(4) == 0x10000int);
    assert(pow16(5) == 0x100000int);
    assert(pow16(6) == 0x1000000int);
    assert(pow16(7) == 0x10000000int);
    assert(pow16(8) == 0x100000000int);
    assert(pow16(9) == 0x1000000000int);
    assert(pow16(10) == 0x10000000000int);
    assert(pow16(11) == 0x100000000000int);
    assert(pow16(12) == 0x1000000000000int);
    assert(pow16(13) == 0x10000000000000int);
    assert(pow16(14) == 0x100000000000000int);
    assert(pow16(15) == 0x1000000000000000int);
    assert(pow16(16) == 0x10000000000000000int);
    assert(pow16(17) == 0x100000000000000000int);
    assert(pow16(18) == 0x1000000000000000000int);
    assert(pow16(19) == 0x10000000000000000000int);
    assert(pow16(20) == 0x100000000000000000000int);
    assert(pow16(21) == 0x1000000000000000000000int);
    assert(pow16(22) == 0x10000000000000000000000int);
    assert(pow16(23) == 0x100000000000000000000000int);
    assert(pow16(24) == 0x1000000000000000000000000int);
    assert(pow16(25) == 0x10000000000000000000000000int);
    assert(pow16(26) == 0x100000000000000000000000000int);
    assert(pow16(27) == 0x1000000000000000000000000000int);
    assert(pow16(28) == 0x10000000000000000000000000000int);
    assert(pow16(29) == 0x100000000000000000000000000000int);
    assert(pow16(30) == 0x1000000000000000000000000000000int);
    assert(pow16(31) == 0x10000000000000000000000000000000int);
}

proof fn lemma_hex_rev_digits(t: int, k: nat)
    ensures
        hex_rev(t, k).len() == k,
        forall|i: int| #![trigger hex_rev(t, k)[i]]
            0 <= i < k ==> exists|d: int| 0 <= d < 16 && hex_rev(t, k)[i] == #[trigger] hex_digit(
                d,
            ),
    decreases k,
{
    if k > 0 {
        lemma_hex_rev_digits(t / 16, (k - 1) as nat);
        let hr = hex_rev(t, k);
        let rest = hex_rev(t / 16, (k - 1) as nat);
        assert(hr =~= seq![hex_digit(t % 16)] + rest);
        assert forall|i: int| #![trigger hr[i]] 0 <= i < k implies exists|d: int|
            0 <= d < 16 && hr[i] == #[trigger] hex_digit(d) by {
            if i == 0 {
                assert(0 <= t % 16 < 16);
                assert(hr[0] == hex_digit(t % 16));
            } else {
                assert(hr[i] == rest[i - 1]);
                let d = choose|d: int| 0 <= d < 16 && rest[i - 1] == hex_digit(d);
                assert(hr[i] == hex_digit(d));
            }
        }
    }
}

/// Every canonical token text is 36 characters: hyphens at the four
/// group breaks, lowercase hexadecimal digits everywhere else.
proof fn lemma_ser_uuid_shape(t: int)
    ensures
        ser_uuid(t).len() == 36,
        forall|j: int|
            0 <= j < 36 && (j == 8 || j == 13 || j == 18 || j == 23)
                ==> #[trigger] ser_uuid(t)[j] == '-',
        forall|j: int| #![trigger ser_uuid(t)[j]]
            0 <= j < 36 && !(j == 8 || j == 13 || j == 18 || j == 23) ==> exists|d: int|
                0 <= d < 16 && ser_uuid(t)[j] == #[trigger] hex_digit(d),
{
    lemma_hex_rev_digits(t, 32);
    let h = uuid_chars(t);
    assert(h.len() == 32);
    assert forall|i: int| #![trigger h[i]] 0 <= i < 32 implies exists|d: int|
        0 <= d < 16 && h[i] == #[trigger] hex_digit(d) by {
        assert(h[i] == hex_rev(t, 32)[31 - i]);
        let d = choose|d: int| 0 <= d < 16 && hex_rev(t, 32)[31 - i] == hex_digit(d);
        assert(h[i] == hex_digit(d));
    }
    assert(ser_uuid(t).len() == 36);
    assert forall|j: int|
        0 <= j < 36 && (j == 8 || j == 13 || j == 18 || j == 23) implies #[trigger] ser_uuid(
        t,
    )[j] == '-' by {}
    assert forall|j: int| #![trigger ser_uuid(t)[j]]
        0 <= j < 36 && !(j == 8 || j == 13 || j == 18 || j == 23) implies exists|d: int|
        0 <= d < 16 && ser_uuid(t)[j] == #[trigger] hex_digit(d) by {
        let hi: int = j - nhyph(j);
        assert(0 <= hi < 32);
        assert(ser_uuid(t)[j] == h[hi]);
        let d = choose|d: int| 0 <= d < 16 && h[hi] == hex_digit(d);
        assert(ser_uuid(t)[j] == hex_digit(d));
    }
}

/// Parses the canonical 36-character text form of a 128-bit token.
fn parse_uuid(s: &Vec<char>, pos: usize) -> (r: Option<(u128, usize)>)
    ensures
        r matches Some((t, p)) ==> p == pos + 36 && p <= s@.len() && s@.subrange(
            pos as int,
            p as int,
        ) == ser_uuid(t as int),
        r is None ==> forall|t2: u128|
            !(pos + 36 <= s@.len() && s@.subrange(pos as int, pos as int + 36) == ser_uuid(
                t2 as int,
            )),
{
    let len = s.len();
    if pos > len || len - pos < 36 {
        return None;
    }
    let mut t: u128 = 0;
    let ghost mut cs = Seq::<char>::empty();
    let mut k: usize = 0;
    proof {
        assert(hex_rev(t as int, 0) =~= cs.reverse());
        assert(pow16(0) == 1);
    }
    while k < 36
        invariant
            k <= 36,
            len == s@.len(),
            pos + 36 <= len,
            cs.len() == k - nhyph(k as int),
            hex_rev(t as int, cs.len() as nat) == cs.reverse(),
            t < pow16(cs.len() as nat),
            forall|j: int|
                0 <= j < k && !(j == 8 || j == 13 || j == 18 || j == 23) ==> 0 <= j - #[trigger] nhyph(j) < cs.len(),
            forall|j: int|
                0 <= j < k ==> #[trigger] s@[pos + j] == (if j == 8 || j == 13 || j == 18
                    || j == 23 {
                    '-'
                } else {
                    cs[j - nhyph(j)]
                }),
        decreases 36 - k,
    {
        let ghost cs0 = cs;
        let c = s[pos + k];
        if k == 8 || k == 13 || k == 18 || k == 23 {
            if c != '-' {
                proof {
                    assert forall|t2: u128|
                        !(pos + 36 <= s@.len() && s@.subrange(pos as int, pos as int + 36)
                            == ser_uuid(t2 as int)) by {
                        if pos + 36 <= s@.len() && s@.subrange(pos as int, pos as int + 36)
                            == ser_uuid(t2 as int) {
                            lemma_ser_uuid_shape(t2 as int);
                            assert(s@[pos + k] == s@.subrange(pos as int, pos as int + 36)[
                                k as int]);
                            assert(ser_uuid(t2 as int)[k as int] == '-');
                        }
                    }
                }
                return None;
            }
        } else {
            let v = match hex_val(c) {
                Some(v) => v,
                None => {
                    proof {
                        assert forall|t2: u128|
                            !(pos + 36 <= s@.len() && s@.subrange(pos as int, pos as int + 36)
                                == ser_uuid(t2 as int)) by {
                            if pos + 36 <= s@.len() && s@.subrange(pos as int, pos as int + 36)
                                == ser_uuid(t2 as int) {
                                lemma_ser_uuid_shape(t2 as int);
                                assert(s@[pos + k] == s@.subrange(pos as int, pos as int + 36)[
                                    k as int]);
                                let d = choose|d: int|
                                    0 <= d < 16 && ser_uuid(t2 as int)[k as int] == hex_digit(d);
                                assert(c != hex_digit(d));
                            }
                        }
                    }
                    return None;
                },
            };
            proof {
                assert(cs0.len() <= 31);
                lemma_pow16_mono(cs0.len() as nat, 31);
                lemma_pow16_31();
                assert(t as int * 16 + 15 <= 0xffffffffffffffffffffffffffffffffu128 as int);
            }
            let ghost t0 = t;
            t = t * 16 + (v as u128);
            proof {
                cs = cs.push(c);
                assert(t as int % 16 == v as int && t as int / 16 == t0 as int);
                assert(hex_rev(t as int, cs.len() as nat) =~= seq![hex_digit(v as int)]
                    + hex_rev(t0 as int, cs0.len() as nat));
                assert(cs.reverse() =~= seq![c] + cs0.reverse());
                assert(hex_rev(t as int, cs.len() as nat) =~= cs.reverse());
                assert(pow16(cs.len() as nat) == 16 * pow16(cs0.len() as nat));
                assert(t < pow16(cs.len() as nat));
            }
        }
        proof {
            assert(nhyph(k as int + 1) == nhyph(k as int) + (if k == 8 || k == 13 || k == 18
                || k == 23 {
                1int
            } else {
                0int
            }));
            assert forall|j: int| 0 <= j < k + 1 implies #[trigger] s@[pos + j] == (if j == 8
                || j == 13 || j == 18 || j == 23 {
                '-'
            } else {
                cs[j - nhyph(j)]
            }) by {
                if j < k {
                    if !(j == 8 || j == 13 || j == 18 || j == 23) {
                        assert(0 <= j - nhyph(j) < cs0.len());
                        assert(cs[j - nhyph(j)] == cs0[j - nhyph(j)]);
                        assert(s@[pos + j] == cs0[j - nhyph(j)]);
                    }
                } else {
                    if !(j == 8 || j == 13 || j == 18 || j == 23) {
                        assert(j - nhyph(j) == cs.len() - 1);
                        assert(cs[j - nhyph(j)] == c);
                    }
                }
            }
        }
        k += 1;
    }
    proof {
        assert(cs.len() == 32);
        assert(uuid_chars(t as int) =~= cs) by {
            assert(hex_rev(t as int, 32) == cs.reverse());
            assert(cs.reverse().reverse() =~= cs);
        }
        assert(ser_uuid(t as int) =~= cs.subrange(0, 8) + seq!['-'] + cs.subrange(8, 12) + seq![
            '-',
        ] + cs.subrange(12, 16) + seq!['-'] + cs.subrange(16, 20) + seq!['-'] + cs.subrange(
            20,
            32,
        ));
        assert forall|j: int| 0 <= j < 36 implies s@.subrange(pos as int, pos as int + 36)[j]
            == ser_uuid(t as int)[j] by {
            assert(s@.subrange(pos as int, pos as int + 36)[j] == s@[pos + j]);
            if j == 8 || j == 13 || j == 18 || j == 23 {
                assert(s@[pos + j] == '-');
            } else if j < 8 {
                assert(nhyph(j) == 0);
                assert(s@[pos + j] == cs[j]);
            } else if j < 13 {
                assert(nhyph(j) == 1);
                assert(s@[pos + j] == cs[j - 1]);
            } else if j < 18 {
                assert(nhyph(j) == 2);
                assert(s@[pos + j] == cs[j - 2]);
            } else if j < 23 {
                assert(nhyph(j) == 3);
                assert(s@[pos + j] == cs[j - 3]);
            } else {
                assert(nhyph(j) == 4);
                assert(s@[pos + j] == cs[j - 4]);
            }
        }
        assert(s@.subrange(pos as int, pos as int + 36) =~= ser_uuid(t as int));
    }
    Some((t, pos + 36))
}

/// Parses a canonical decimal number (no sign, no leading zeros).
/// Strict and complete: an accepted span is exactly the decimal form of
/// the result, and every canonical decimal followed by a non-digit (or
/// the end of input) is accepted up to exactly its own length.
fn parse_dec(s: &Vec<char>, pos: usize) -> (r: Option<(u64, usize)>)
    ensures
        r matches Some((n, p)) ==> pos < p <= s@.len() && s@.subrange(pos as int, p as int)
            == dec_chars(n as int),
        forall|n2: u64| #![trigger dec_chars(n2 as int)]
            (begins_with(s@, pos as int, dec_chars(n2 as int)) && (pos + dec_chars(n2 as int).len()
                == s@.len() || !is_dec_digit(s@[pos as int + dec_chars(n2 as int).len() as int])))
                ==> (r matches Some((n, p)) && p == pos + dec_chars(n2 as int).len()),
{
    if pos >= s.len() {
        proof {
            assert forall|n2: u64| !begins_with(s@, pos as int, dec_chars(n2 as int)) by {
                lemma_dec_chars_props(n2 as int);
            }
        }
        return None;
    }
    let d0 = match dec_val(s[pos]) {
        Some(d) => d,
        None => {
            proof {
                assert forall|n2: u64| !begins_with(s@, pos as int, dec_chars(n2 as int)) by {
                    if begins_with(s@, pos as int, dec_chars(n2 as int)) {
                        lemma_dec_chars_props(n2 as int);
                        assert(s@[pos as int] == dec_chars(n2 as int)[0]);
                    }
                }
            }
            return None;
        },
    };
    if d0 == 0 {
        proof {
            assert(s@.subrange(pos as int, pos as int + 1) =~= dec_chars(0));
            assert forall|n2: u64|
                begins_with(s@, pos as int, dec_chars(n2 as int)) implies n2 == 0 by {
                if n2 >= 1 {
                    lemma_dec_chars_props(n2 as int);
                    assert(s@[pos as int] == dec_chars(n2 as int)[0]);
                    assert(s@[pos as int] == hex_digit(0));
                }
            }
        }
        return Some((0, pos + 1));
    }
    let mut n: u64 = d0 as u64;
    let mut i: usize = pos + 1;
    proof {
        assert(s@.subrange(pos as int, pos as int + 1) =~= dec_chars(n as int));
        assert forall|n2: u64|
            begins_with(s@, pos as int, dec_chars(n2 as int)) implies i <= pos + dec_chars(
            n2 as int,
        ).len() by {
            lemma_dec_chars_props(n2 as int);
        }
        assert(forall|n2: u64| #![trigger dec_chars(n2 as int)]
            (begins_with(s@, pos as int, dec_chars(n2 as int)) && (pos + dec_chars(
                n2 as int,
            ).len() == s@.len() || !is_dec_digit(s@[pos as int + dec_chars(
                n2 as int,
            ).len() as int]))) ==> i <= pos + dec_chars(n2 as int).len());
    }
    while i < s.len()
        invariant
            pos < i <= s@.len(),
            1 <= n,
            s@.subrange(pos as int, i as int) == dec_chars(n as int),
            forall|n2: u64| #![trigger dec_chars(n2 as int)]
                (begins_with(s@, pos as int, dec_chars(n2 as int)) && (pos + dec_chars(
                    n2 as int,
                ).len() == s@.len() || !is_dec_digit(s@[pos as int + dec_chars(
                    n2 as int,
                ).len() as int]))) ==> i <= pos + dec_chars(n2 as int).len(),
        decreases s@.len() - i,
    {
        let d = match dec_val(s[i]) {
            Some(d) => d,
            None => {
                proof {
                    assert forall|n2: u64|
                        (begins_with(s@, pos as int, dec_chars(n2 as int)) && (pos + dec_chars(
                            n2 as int,
                        ).len() == s@.len() || !is_dec_digit(s@[pos as int + dec_chars(
                            n2 as int,
                        ).len() as int]))) implies i == pos + dec_chars(n2 as int).len() by {
                        if i < pos + dec_chars(n2 as int).len() {
                            lemma_dec_chars_props(n2 as int);
                            assert(s@[i as int] == dec_chars(n2 as int)[i - pos]);
                            assert(is_dec_digit(s@[i as int]));
                        }
                    }
                }
                return Some((n, i));
            },
        };
        if n > (u64::MAX - (d as u64)) / 10 {
            proof {
                assert forall|n2: u64|
                    !(begins_with(s@, pos as int, dec_chars(n2 as int)) && (pos + dec_chars(
                        n2 as int,
                    ).len() == s@.len() || !is_dec_digit(s@[pos as int + dec_chars(
                        n2 as int,
                    ).len() as int]))) by {
                    if begins_with(s@, pos as int, dec_chars(n2 as int)) && (pos + dec_chars(
                        n2 as int,
                    ).len() == s@.len() || !is_dec_digit(s@[pos as int + dec_chars(
                        n2 as int,
                    ).len() as int])) {
                        lemma_dec_chars_props(n2 as int);
                        let ln2 = dec_chars(n2 as int).len();
                        if i == pos + ln2 {
                            assert(is_dec_digit(s@[i as int])) by {
                                assert(s@[i as int] == hex_digit(d as int));
                            }
                        }
                        assert(i < pos + ln2);
                        assert(s@[i as int] == dec_chars(n2 as int)[i - pos]);
                        assert(dec_chars(n2 as int)[i - pos] == hex_digit(d as int)) by {
                            assert(s@[i as int] == hex_digit(d as int));
                        }
                        let next = n as int * 10 + d as int;
                        assert(dec_chars(next) == dec_chars(n as int).push(hex_digit(d as int)));
                        assert(dec_chars(next) =~= dec_chars(n2 as int).take(i - pos + 1)) by {
                            assert(forall|j: int|
                                0 <= j < i - pos ==> #[trigger] dec_chars(n as int)[j] == s@[
                                    pos + j] && dec_chars(n2 as int)[j] == s@[pos + j]);
                        }
                        lemma_dec_prefix_value(next, n2 as int, i - pos + 1);
                        assert(next <= n2 as int);
                    }
                }
            }
            return None;
        }
        let ghost n0 = n;
        n = n * 10 + (d as u64);
        proof {
            assert(n as int / 10 == n0 as int && n as int % 10 == d as int);
            assert(dec_chars(n as int) =~= dec_chars(n0 as int).push(hex_digit(d as int)));
            assert(s@.subrange(pos as int, i as int + 1) =~= s@.subrange(pos as int, i as int)
                + seq![s@[i as int]]);
            assert forall|n2: u64|
                (begins_with(s@, pos as int, dec_chars(n2 as int)) && (pos + dec_chars(
                    n2 as int,
                ).len() == s@.len() || !is_dec_digit(s@[pos as int + dec_chars(
                    n2 as int,
                ).len() as int]))) implies i + 1 <= pos + dec_chars(n2 as int).len() by {
                if i == pos + dec_chars(n2 as int).len() {
                    assert(is_dec_digit(s@[i as int])) by {
                        assert(s@[i as int] == hex_digit(d as int));
                    }
                }
            }
        }
        i += 1;
    }
    proof {
        assert forall|n2: u64|
            (begins_with(s@, pos as int, dec_chars(n2 as int)) && (pos + dec_chars(
                n2 as int,
            ).len() == s@.len() || !is_dec_digit(s@[pos as int + dec_chars(
                n2 as int,
            ).len() as int]))) implies i == pos + dec_chars(n2 as int).len() by {}
    }
    Some((n, i))
}

/// Serializes one protocol message to its wire text.
pub fn event_to_wire(e: &AppEvent) -> (r: String)
    ensures
        r@ == ser_event(e@),
{
    let mut out: Vec<char> = Vec::new();
    push_event(&mut out, e);
    proof {
        assert(out@ =~= ser_event(e@));
    }
    chars_to_string(&out)
}

/// Where the pieces of a serialized user sit in a text beginning with it.
proof fn lemma_user_parts(s: Seq<char>, pos: int, u: UserV)
    requires
        begins_with(s, pos, ser_user(u)),
    ensures
        begins_with(s, pos, "{\"id\":\""@),
        begins_with(s, pos + "{\"id\":\""@.len(), ser_uuid(u.id as int)),
        ser_uuid(u.id as int).len() == 36,
        begins_with(s, pos + "{\"id\":\""@.len() + 36, "\",\"name\":"@),
        begins_with(
            s,
            pos + "{\"id\":\""@.len() + 36 + "\",\"name\":"@.len(),
            ser_string(u.name),
        ),
        begins_with(
            s,
            pos + "{\"id\":\""@.len() + 36 + "\",\"name\":"@.len() + ser_string(u.name).len(),
            "}"@,
        ),
        ser_user(u).len() == "{\"id\":\""@.len() + 36 + "\",\"name\":"@.len() + ser_string(
            u.name,
        ).len() + "}"@.len(),
{
    lemma_ser_uuid_shape(u.id as int);
    let a = "{\"id\":\""@;
    let b = ser_uuid(u.id as int);
    let c = "\",\"name\":"@;
    let d = ser_string(u.name);
    let e = "}"@;
    assert(ser_user(u) == (((a + b) + c) + d) + e);
    lemma_begins_with_concat(s, pos, ((a + b) + c) + d, e);
    lemma_begins_with_concat(s, pos, (a + b) + c, d);
    lemma_begins_with_concat(s, pos, a + b, c);
    lemma_begins_with_concat(s, pos, a, b);
}

/// Where the pieces of a serialized story payload sit in a text
/// beginning with it.
proof fn lemma_story_info_parts(s: Seq<char>, pos: int, iv: StoryInfoV)
    requires
        begins_with(s, pos, ser_story_info(iv)),
    ensures
        begins_with(s, pos, "{\"title\":"@),
        begins_with(s, pos + "{\"title\":"@.len(), ser_string(iv.title)),
        begins_with(s, pos + "{\"title\":"@.len() + ser_string(iv.title).len(), "}"@),
        ser_story_info(iv).len() == "{\"title\":"@.len() + ser_string(iv.title).len()
            + "}"@.len(),
{
    let a = "{\"title\":"@;
    let b = ser_string(iv.title);
    let c = "}"@;
    assert(ser_story_info(iv) == (a + b) + c);
    lemma_begins_with_concat(s, pos, a + b, c);
    lemma_begins_with_concat(s, pos, a, b);
}

fn parse_user(s: &Vec<char>, pos: usize) -> (r: Option<(User, usize)>)
    ensures
        r matches Some((u, p)) ==> pos <= p <= s@.len() && s@.subrange(pos as int, p as int)
            == ser_user(u@),
        forall|u2: UserV| #![trigger ser_user(u2)]
            begins_with(s@, pos as int, ser_user(u2)) ==> (r matches Some((u, p)) && p == pos
                + ser_user(u2).len()),
{
    let p1 = match eat_lit(s, pos, "{\"id\":\"") {
        Some(p) => p,
        None => {
            proof {
                assert forall|u2: UserV| !begins_with(s@, pos as int, ser_user(u2)) by {
                    if begins_with(s@, pos as int, ser_user(u2)) {
                        lemma_user_parts(s@, pos as int, u2);
                    }
                }
            }
            return None;
        },
    };
    let (id, p2) = match parse_uuid(s, p1) {
        Some(x) => x,
        None => {
            proof {
                assert forall|u2: UserV| !begins_with(s@, pos as int, ser_user(u2)) by {
                    if begins_with(s@, pos as int, ser_user(u2)) {
                        lemma_user_parts(s@, pos as int, u2);
                    }
                }
            }
            return None;
        },
    };
    let p3 = match eat_lit(s, p2, "\",\"name\":") {
        Some(p) => p,
        None => {
            proof {
                assert forall|u2: UserV| !begins_with(s@, pos as int, ser_user(u2)) by {
                    if begins_with(s@, pos as int, ser_user(u2)) {
                        lemma_user_parts(s@, pos as int, u2);
                    }
                }
            }
            return None;
        },
    };
    let (name, p4) = match parse_string(s, p3) {
        Some(x) => x,
        None => {
            proof {
                assert forall|u2: UserV| !begins_with(s@, pos as int, ser_user(u2)) by {
                    if begins_with(s@, pos as int, ser_user(u2)) {
                        lemma_user_parts(s@, pos as int, u2);
                    }
                }
            }
            return None;
        },
    };
    let p5 = match eat_lit(s, p4, "}") {
        Some(p) => p,
        None => {
            proof {
                assert forall|u2: UserV| !begins_with(s@, pos as int, ser_user(u2)) by {
                    if begins_with(s@, pos as int, ser_user(u2)) {
                        lemma_user_parts(s@, pos as int, u2);
                    }
                }
            }
            return None;
        },
    };
    let u = User { id: UserId(id), name };
    proof {
        assert(s@.subrange(pos as int, p5 as int) =~= ser_user(u@));
        assert forall|u2: UserV|
            begins_with(s@, pos as int, ser_user(u2)) implies p5 == pos + ser_user(u2).len() by {
            lemma_user_parts(s@, pos as int, u2);
        }
    }
    Some((u, p5))
}

fn parse_story_info(s: &Vec<char>, pos: usize) -> (r: Option<(StoryInfo, usize)>)
    ensures
        r matches Some((i, p)) ==> pos <= p <= s@.len() && s@.subrange(pos as int, p as int)
            == ser_story_info(i@),
        forall|iv: StoryInfoV| #![trigger ser_story_info(iv)]
            begins_with(s@, pos as int, ser_story_info(iv)) ==> (r matches Some((i, p)) && p
                == pos + ser_story_info(iv).len()),
{
    let p1 = match eat_lit(s, pos, "{\"title\":") {
        Some(p) => p,
        None => {
            proof {
                assert forall|iv: StoryInfoV| !begins_with(
                    s@,
                    pos as int,
                    ser_story_info(iv),
                ) by {
                    if begins_with(s@, pos as int, ser_story_info(iv)) {
                        lemma_story_info_parts(s@, pos as int, iv);
                    }
                }
            }
            return None;
        },
    };
    let (title, p2) = match parse_string(s, p1) {
        Some(x) => x,
        None => {
            proof {
                assert forall|iv: StoryInfoV| !begins_with(
                    s@,
                    pos as int,
                    ser_story_info(iv),
                ) by {
                    if begins_with(s@, pos as int, ser_story_info(iv)) {
                        lemma_story_info_parts(s@, pos as int, iv);
                    }
                }
            }
            return None;
        },
    };
    let p3 = match eat_lit(s, p2, "}") {
        Some(p) => p,
        None => {
            proof {
                assert forall|iv: StoryInfoV| !begins_with(
                    s@,
                    pos as int,
                    ser_story_info(iv),
                ) by {
                    if begins_with(s@, pos as int, ser_story_info(iv)) {
                        lemma_story_info_parts(s@, pos as int, iv);
                    }
                }
            }
            return None;
        },
    };
    let i = StoryInfo { title };
    proof {
        assert(s@.subrange(pos as int, p3 as int) =~= ser_story_info(i@));
        assert forall|iv: StoryInfoV|
            begins_with(s@, pos as int, ser_story_info(iv)) implies p3 == pos + ser_story_info(
            iv,
        ).len() by {
            lemma_story_info_parts(s@, pos as int, iv);
        }
    }
    Some((i, p3))
}

/// Where the pieces of a serialized backlog story sit in a text
/// beginning with it.
proof fn lemma_backlog_story_parts(s: Seq<char>, pos: int, b: BacklogStoryV)
    requires
        begins_with(s, pos, ser_backlog_story(b)),
    ensures
        begins_with(s, pos, "{\"id\":\""@),
        begins_with(s, pos + "{\"id\":\""@.len(), ser_uuid(b.id as int)),
        ser_uuid(b.id as int).len() == 36,
        begins_with(s, pos + "{\"id\":\""@.len() + 36, "\",\"info\":"@),
        begins_with(
            s,
            pos + "{\"id\":\""@.len() + 36 + "\",\"info\":"@.len(),
            ser_story_info(b.info),
        ),
        begins_with(
            s,
            pos + "{\"id\":\""@.len() + 36 + "\",\"info\":"@.len() + ser_story_info(
                b.info,
            ).len(),
            "}"@,
        ),
        ser_backlog_story(b).len() == "{\"id\":\""@.len() + 36 + "\",\"info\":"@.len()
            + ser_story_info(b.info).len() + "}"@.len(),
{
    lemma_ser_uuid_shape(b.id as int);
    let a = "{\"id\":\""@;
    let b2 = ser_uuid(b.id as int);
    let c = "\",\"info\":"@;
    let d = ser_story_info(b.info);
    let e = "}"@;
    assert(ser_backlog_story(b) == (((a + b2) + c) + d) + e);
    lemma_begins_with_concat(s, pos, ((a + b2) + c) + d, e);
    lemma_begins_with_concat(s, pos, (a + b2) + c, d);
    lemma_begins_with_concat(s, pos, a + b2, c);
    lemma_begins_with_concat(s, pos, a, b2);
}

fn parse_backlog_story(s: &Vec<char>, pos: usize) -> (r: Option<(BacklogStory, usize)>)
    ensures
        r matches Some((b, p)) ==> pos <= p <= s@.len() && s@.subrange(pos as int, p as int)
            == ser_backlog_story(b@),
        forall|b2: BacklogStoryV| #![trigger ser_backlog_story(b2)]
            begins_with(s@, pos as int, ser_backlog_story(b2)) ==> (r matches Some((b, p)) && p
                == pos + ser_backlog_story(b2).len()),
{
    let p1 = match eat_lit(s, pos, "{\"id\":\"") {
        Some(p) => p,
        None => {
            proof {
                assert forall|b2: BacklogStoryV| !begins_with(
                    s@,
                    pos as int,
                    ser_backlog_story(b2),
                ) by {
                    if begins_with(s@, pos as int, ser_backlog_story(b2)) {
                        lemma_backlog_story_parts(s@, pos as int, b2);
                    }
                }
            }
            return None;
        },
    };
    let (id, p2) = match parse_uuid(s, p1) {
        Some(x) => x,
        None => {
            proof {
                assert forall|b2: BacklogStoryV| !begins_with(
                    s@,
                    pos as int,
                    ser_backlog_story(b2),
                ) by {
                    if begins_with(s@, pos as int, ser_backlog_story(b2)) {
                        lemma_backlog_story_parts(s@, pos as int, b2);
                    }
                }
            }
            return None;
        },
    };
    let p3 = match eat_lit(s, p2, "\",\"info\":") {
        Some(p) => p,
        None => {
            proof {
                assert forall|b2: BacklogStoryV| !begins_with(
                    s@,
                    pos as int,
                    ser_backlog_story(b2),
                ) by {
                    if begins_with(s@, pos as int, ser_backlog_story(b2)) {
                        lemma_backlog_story_parts(s@, pos as int, b2);
                    }
                }
            }
            return None;
        },
    };
    let (info, p4) = match parse_story_info(s, p3) {
        Some(x) => x,
        None => {
            proof {
                assert forall|b2: BacklogStoryV| !begins_with(
                    s@,
                    pos as int,
                    ser_backlog_story(b2),
                ) by {
                    if begins_with(s@, pos as int, ser_backlog_story(b2)) {
                        lemma_backlog_story_parts(s@, pos as int, b2);
                    }
                }
            }
            return None;
        },
    };
    let p5 = match eat_lit(s, p4, "}") {
        Some(p) => p,
        None => {
            proof {
                assert forall|b2: BacklogStoryV| !begins_with(
                    s@,
                    pos as int,
                    ser_backlog_story(b2),
                ) by {
                    if begins_with(s@, pos as int, ser_backlog_story(b2)) {
                        lemma_backlog_story_parts(s@, pos as int, b2);
                    }
                }
            }
            return None;
        },
    };
    let b = BacklogStory { id: StoryId(id), info };
    proof {
        assert(s@.subrange(pos as int, p5 as int) =~= ser_backlog_story(b@));
        assert forall|b2: BacklogStoryV|
            begins_with(s@, pos as int, ser_backlog_story(b2)) implies p5 == pos
            + ser_backlog_story(b2).len() by {
            lemma_backlog_story_parts(s@, pos as int, b2);
        }
    }
    Some((b, p5))
}

/// A serialized prefix of a story list is a prefix of the serialized
/// list, and the next entry (with its separating comma) follows it.
proof fn lemma_story_items_prefix(ss: Seq<BacklogStoryV>, m: int)
    requires
        0 <= m <= ss.len(),
    ensures
        ser_story_items(ss.take(m)).len() <= ser_story_items(ss).len(),
        ser_story_items(ss).subrange(0, ser_story_items(ss.take(m)).len() as int)
            == ser_story_items(ss.take(m)),
        m < ss.len() ==> ({
            let lm = ser_story_items(ss.take(m)).len() as int;
            let unit = if m == 0 {
                ser_backlog_story(ss[0])
            } else {
                seq![','] + ser_backlog_story(ss[m])
            };
            &&& lm + unit.len() <= ser_story_items(ss).len()
            &&& ser_story_items(ss).subrange(lm, lm + unit.len() as int) == unit
        }),
    decreases ss.len() - m,
{
    if m == ss.len() {
        assert(ss.take(m) =~= ss);
    } else {
        lemma_story_items_prefix(ss, m + 1);
        assert(ss.take(m + 1).drop_last() =~= ss.take(m));
        assert(ss.take(m + 1).last() == ss[m]);
        let unit = if m == 0 {
            ser_backlog_story(ss[0])
        } else {
            seq![','] + ser_backlog_story(ss[m])
        };
        assert(ser_story_items(ss.take(m + 1)) =~= ser_story_items(ss.take(m)) + unit) by {
            if m == 0 {
                assert(ss.take(1).len() == 1);
                assert(ss.take(1)[0] == ss[0]);
                assert(ser_story_items(ss.take(0)) =~= Seq::<char>::empty());
            }
        }
        let lm = ser_story_items(ss.take(m)).len() as int;
        let lm1 = ser_story_items(ss.take(m + 1)).len() as int;
        assert(ser_story_items(ss).subrange(0, lm) =~= ser_story_items(ss).subrange(
            0,
            lm1,
        ).subrange(0, lm));
        assert(ser_story_items(ss).subrange(0, lm1).subrange(0, lm) =~= ser_story_items(
            ss.take(m),
        ));
        assert(ser_story_items(ss).subrange(lm, lm + unit.len() as int) =~= ser_story_items(
            ss,
        ).subrange(0, lm1).subrange(lm, lm1));
        assert(ser_story_items(ss).subrange(0, lm1).subrange(lm, lm1) =~= unit);
    }
}

/// Where the pieces of a serialized story list sit in a text beginning
/// with it.
proof fn lemma_stories_region(s: Seq<char>, pos: int, ss: Seq<BacklogStoryV>, m: int)
    requires
        begins_with(s, pos, ser_stories(ss)),
        0 <= m <= ss.len(),
    ensures
        pos + 1 + ser_story_items(ss).len() + 1 <= s.len(),
        s[pos] == '[',
        s[pos + 1 + ser_story_items(ss).len() as int] == ']',
        s.subrange(pos + 1, pos + 1 + (ser_story_items(ss.take(m)).len() as int))
            == ser_story_items(ss.take(m)),
        ser_story_items(ss.take(m)).len() <= ser_story_items(ss).len(),
        m < ss.len() ==> ({
            let lm = ser_story_items(ss.take(m)).len() as int;
            if m == 0 {
                begins_with(s, pos + 1, ser_backlog_story(ss[0]))
            } else {
                s[pos + 1 + lm] == ',' && begins_with(
                    s,
                    pos + 1 + lm + 1,
                    ser_backlog_story(ss[m]),
                )
            }
        }),
{
    lemma_story_items_prefix(ss, m);
    let its = ser_story_items(ss);
    assert(ser_stories(ss) == (seq!['['] + its) + seq![']']);
    lemma_begins_with_concat(s, pos, seq!['['] + its, seq![']']);
    lemma_begins_with_concat(s, pos, seq!['['], its);
    assert(s[pos] == s.subrange(pos, pos + 1)[0]);
    assert(s[pos + 1 + its.len() as int] == s.subrange(
        pos + 1 + its.len() as int,
        pos + 1 + its.len() + 1,
    )[0]);
    let lm = ser_story_items(ss.take(m)).len() as int;
    assert(forall|j: int|
        0 <= j < its.len() ==> #[trigger] s[pos + 1 + j] == its[j]) by {
        assert(forall|j: int|
            0 <= j < its.len() ==> #[trigger] s.subrange(pos + 1, pos + 1 + its.len() as int)[j]
                == s[pos + 1 + j]);
    }
    assert(s.subrange(pos + 1, pos + 1 + lm) =~= ser_story_items(ss.take(m)));
    if m < ss.len() {
        let unit = if m == 0 {
            ser_backlog_story(ss[0])
        } else {
            seq![','] + ser_backlog_story(ss[m])
        };
        assert(s.subrange(pos + 1 + lm, pos + 1 + lm + unit.len() as int) =~= unit);
        if m == 0 {
            assert(s.subrange(pos + 1, pos + 1 + unit.len() as int) =~= ser_backlog_story(
                ss[0],
            ));
        } else {
            assert(s[pos + 1 + lm] == s.subrange(pos + 1 + lm, pos + 1 + lm + unit.len() as int)[
                0]);
            assert forall|j: int| 0 <= j < ser_backlog_story(ss[m]).len() implies s[pos + 1 + lm
                + 1 + j] == #[trigger] ser_backlog_story(ss[m])[j] by {
                assert(s.subrange(pos + 1 + lm, pos + 1 + lm + unit.len() as int)[1 + j] == s[pos
                    + 1 + lm + (1 + j)]);
                assert(unit[1 + j] == ser_backlog_story(ss[m])[j]);
            }
            assert(s.subrange(pos + 1 + lm + 1, pos + 1 + lm + 1 + (ser_backlog_story(
                ss[m],
            ).len() as int)) =~= ser_backlog_story(ss[m]));
        }
    }
}

fn parse_stories(s: &Vec<char>, pos: usize) -> (r: Option<(Vec<BacklogStory>, usize)>)
    ensures
        r matches Some((v, p)) ==> pos <= p <= s@.len() && s@.subrange(pos as int, p as int)
            == ser_stories(backlog_view(v@)),
        forall|ss2: Seq<BacklogStoryV>| #![trigger ser_stories(ss2)]
            begins_with(s@, pos as int, ser_stories(ss2)) ==> (r matches Some((v, p)) && p == pos
                + ser_stories(ss2).len()),
{
    proof {
        reveal_strlit("{\"id\":\"");
    }
    if pos >= s.len() {
        proof {
            assert forall|ss2: Seq<BacklogStoryV>| !begins_with(
                s@,
                pos as int,
                ser_stories(ss2),
            ) by {
                if begins_with(s@, pos as int, ser_stories(ss2)) {
                    lemma_stories_region(s@, pos as int, ss2, 0);
                }
            }
        }
        return None;
    }
    if s[pos] != '[' {
        proof {
            assert forall|ss2: Seq<BacklogStoryV>| !begins_with(
                s@,
                pos as int,
                ser_stories(ss2),
            ) by {
                if begins_with(s@, pos as int, ser_stories(ss2)) {
                    lemma_stories_region(s@, pos as int, ss2, 0);
                }
            }
        }
        return None;
    }
    let mut acc: Vec<BacklogStory> = Vec::new();
    let i = pos + 1;
    if i < s.len() && s[i] == ']' {
        proof {
            assert(backlog_view(acc@) =~= Seq::<BacklogStoryV>::empty());
            assert(s@.subrange(pos as int, i as int + 1) =~= ser_stories(backlog_view(acc@)));
            assert forall|ss2: Seq<BacklogStoryV>|
                begins_with(s@, pos as int, ser_stories(ss2)) implies i + 1 == pos + ser_stories(
                ss2,
            ).len() by {
                lemma_stories_region(s@, pos as int, ss2, 0);
                if ss2.len() > 0 {
                    assert(s@[i as int] == ser_backlog_story(ss2[0])[0]);
                    assert(ser_backlog_story(ss2[0])[0] == "{\"id\":\""@[0]) by {
                        assert(ser_backlog_story(ss2[0]) == ("{\"id\":\""@ + ser_uuid(
                            ss2[0].id as int,
                        ) + "\",\"info\":"@ + ser_story_info(ss2[0].info)) + "}"@);
                    }
                    assert(false);
                }
                assert(ss2.take(0) =~= ss2);
            }
        }
        return Some((acc, i + 1));
    }
    let (b0, mut cur) = match parse_backlog_story(s, i) {
        Some(x) => x,
        None => {
            proof {
                assert forall|ss2: Seq<BacklogStoryV>| !begins_with(
                    s@,
                    pos as int,
                    ser_stories(ss2),
                ) by {
                    if begins_with(s@, pos as int, ser_stories(ss2)) {
                        lemma_stories_region(s@, pos as int, ss2, 0);
                        if ss2.len() == 0 {
                            assert(ser_story_items(ss2.take(0)).len() == 0);
                            assert(s@[i as int] == ']');
                        }
                    }
                }
            }
            return None;
        },
    };
    acc.push(b0);
    proof {
        assert(backlog_view(acc@).len() == 1);
        assert(backlog_view(acc@)[0] == acc@[0]@);
        assert(s@.subrange(pos as int + 1, cur as int) =~= ser_story_items(backlog_view(acc@)));
        assert forall|ss2: Seq<BacklogStoryV>| #![trigger ser_stories(ss2)]
            begins_with(s@, pos as int, ser_stories(ss2)) implies (acc@.len() <= ss2.len()
            && ser_story_items(backlog_view(acc@)) == ser_story_items(ss2.take(
            acc@.len() as int,
        ))) by {
            lemma_stories_region(s@, pos as int, ss2, 0);
            if ss2.len() == 0 {
                assert(ser_story_items(ss2.take(0)).len() == 0);
                assert(s@[i as int] == ']');
                assert(false);
            }
            assert(cur == i + ser_backlog_story(ss2[0]).len());
            assert(s@.subrange(i as int, cur as int) == ser_backlog_story(ss2[0]));
            assert(s@.subrange(i as int, cur as int) == ser_backlog_story(b0@));
            assert(ss2.take(1).len() == 1);
            assert(ss2.take(1)[0] == ss2[0]);
            assert(ser_story_items(ss2.take(1)) == ser_backlog_story(ss2[0]));
            assert(ser_story_items(backlog_view(acc@)) == ser_backlog_story(b0@));
        }
    }
    loop
        invariant
            pos < s@.len(),
            s@[pos as int] == '[',
            pos + 1 <= cur <= s@.len(),
            acc@.len() >= 1,
            s@.subrange(pos as int + 1, cur as int) == ser_story_items(backlog_view(acc@)),
            forall|ss2: Seq<BacklogStoryV>| #![trigger ser_stories(ss2)]
                begins_with(s@, pos as int, ser_stories(ss2)) ==> (acc@.len() <= ss2.len()
                    && ser_story_items(backlog_view(acc@)) == ser_story_items(ss2.take(
                    acc@.len() as int,
                ))),
        decreases s@.len() - cur,
    {
        if cur >= s.len() {
            proof {
                assert forall|ss2: Seq<BacklogStoryV>| !begins_with(
                    s@,
                    pos as int,
                    ser_stories(ss2),
                ) by {
                    if begins_with(s@, pos as int, ser_stories(ss2)) {
                        let m = acc@.len() as int;
                        lemma_stories_region(s@, pos as int, ss2, m);
                        assert(cur - (pos + 1) == ser_story_items(ss2.take(m)).len());
                    }
                }
            }
            return None;
        }
        if s[cur] == ']' {
            proof {
                assert(s@.subrange(pos as int, cur as int + 1) =~= seq!['[']
                    + ser_story_items(backlog_view(acc@)) + seq![']']);
                assert forall|ss2: Seq<BacklogStoryV>|
                    begins_with(s@, pos as int, ser_stories(ss2)) implies cur + 1 == pos
                    + ser_stories(ss2).len() by {
                    let m = acc@.len() as int;
                    lemma_stories_region(s@, pos as int, ss2, m);
                    assert(cur - (pos + 1) == ser_story_items(ss2.take(m)).len());
                    if m < ss2.len() {
                        assert(s@[cur as int] == ',');
                        assert(false);
                    }
                    assert(ss2.take(m) =~= ss2);
                }
            }
            return Some((acc, cur + 1));
        }
        if s[cur] != ',' {
            proof {
                assert forall|ss2: Seq<BacklogStoryV>| !begins_with(
                    s@,
                    pos as int,
                    ser_stories(ss2),
                ) by {
                    if begins_with(s@, pos as int, ser_stories(ss2)) {
                        let m = acc@.len() as int;
                        lemma_stories_region(s@, pos as int, ss2, m);
                        assert(cur - (pos + 1) == ser_story_items(ss2.take(m)).len());
                        if m == ss2.len() {
                            assert(ss2.take(m) =~= ss2);
                            assert(s@[cur as int] == ']');
                        } else {
                            assert(s@[cur as int] == ',');
                        }
                    }
                }
            }
            return None;
        }
        let (b, p) = match parse_backlog_story(s, cur + 1) {
            Some(x) => x,
            None => {
                proof {
                    assert forall|ss2: Seq<BacklogStoryV>| !begins_with(
                        s@,
                        pos as int,
                        ser_stories(ss2),
                    ) by {
                        if begins_with(s@, pos as int, ser_stories(ss2)) {
                            let m = acc@.len() as int;
                            lemma_stories_region(s@, pos as int, ss2, m);
                            assert(cur - (pos + 1) == ser_story_items(ss2.take(m)).len());
                            if m == ss2.len() {
                                assert(ss2.take(m) =~= ss2);
                                assert(s@[cur as int] == ']');
                            }
                        }
                    }
                }
                return None;
            },
        };
        if p <= cur {
            proof {
                assert forall|ss2: Seq<BacklogStoryV>| !begins_with(
                    s@,
                    pos as int,
                    ser_stories(ss2),
                ) by {
                    if begins_with(s@, pos as int, ser_stories(ss2)) {
                        let m = acc@.len() as int;
                        lemma_stories_region(s@, pos as int, ss2, m);
                        assert(cur - (pos + 1) == ser_story_items(ss2.take(m)).len());
                        if m == ss2.len() {
                            assert(ss2.take(m) =~= ss2);
                            assert(s@[cur as int] == ']');
                            assert(false);
                        }
                        assert(p == cur + 1 + ser_backlog_story(ss2[m]).len());
                    }
                }
            }
            return None;
        }
        let ghost av0 = backlog_view(acc@);
        acc.push(b);
        proof {
            let av = backlog_view(acc@);
            assert(av.drop_last() =~= av0);
            assert(av.last() == b@);
            assert(ser_story_items(av) =~= ser_story_items(av0) + seq![',']
                + ser_backlog_story(b@));
            assert(s@.subrange(pos as int + 1, p as int) =~= s@.subrange(
                pos as int + 1,
                cur as int,
            ) + seq![','] + s@.subrange(cur as int + 1, p as int));
            assert forall|ss2: Seq<BacklogStoryV>| #![trigger ser_stories(ss2)]
                begins_with(s@, pos as int, ser_stories(ss2)) implies (acc@.len() <= ss2.len()
                && ser_story_items(av) == ser_story_items(ss2.take(acc@.len() as int))) by {
                let m = av0.len() as int;
                lemma_stories_region(s@, pos as int, ss2, m);
                assert(cur - (pos + 1) == ser_story_items(ss2.take(m)).len());
                if m == ss2.len() {
                    assert(ss2.take(m) =~= ss2);
                    assert(s@[cur as int] == ']');
                    assert(false);
                }
                assert(p == cur + 1 + ser_backlog_story(ss2[m]).len());
                assert(s@.subrange(cur as int + 1, p as int) == ser_backlog_story(ss2[m]));
                assert(s@.subrange(cur as int + 1, p as int) == ser_backlog_story(b@));
                assert(ss2.take(m + 1).drop_last() =~= ss2.take(m));
                assert(ss2.take(m + 1).last() == ss2[m]);
                assert(ser_story_items(ss2.take(m + 1)) == ser_story_items(ss2.take(m)) + seq![
                    ',',
                ] + ser_backlog_story(ss2[m]));
                assert(ser_story_items(av) =~= ser_story_items(ss2.take(m + 1)));
            }
        }
        cur = p;
    }
}

fn parse_vote(s: &Vec<char>, pos: usize) -> (r: Option<(Vote, usize)>)
    ensures
        r matches Some((v, p)) ==> pos < p <= s@.len() && s@.subrange(pos as int, p as int)
            == dec_chars(v@),
        forall|v2: int| #![trigger dec_chars(v2)]
            (is_allowed_value(v2) && begins_with(s@, pos as int, dec_chars(v2)) && (pos
                + dec_chars(v2).len() == s@.len() || !is_dec_digit(s@[pos as int + dec_chars(
                v2,
            ).len() as int]))) ==> (r matches Some((v, p)) && p == pos + dec_chars(v2).len()),
{
    let (n, p) = match parse_dec(s, pos) {
        Some(x) => x,
        None => {
            proof {
                assert forall|v2: int|
                    !(is_allowed_value(v2) && begins_with(s@, pos as int, dec_chars(v2)) && (pos
                        + dec_chars(v2).len() == s@.len() || !is_dec_digit(s@[pos as int
                        + dec_chars(v2).len() as int]))) by {
                    if is_allowed_value(v2) {
                        assert(dec_chars(v2 as u64 as int) == dec_chars(v2));
                    }
                }
            }
            return None;
        },
    };
    proof {
        assert forall|v2: int|
            (is_allowed_value(v2) && begins_with(s@, pos as int, dec_chars(v2)) && (pos
                + dec_chars(v2).len() == s@.len() || !is_dec_digit(s@[pos as int + dec_chars(
                v2,
            ).len() as int]))) implies n as int == v2 && p == pos + dec_chars(v2).len() by {
            assert(dec_chars(v2 as u64 as int) == dec_chars(v2));
            assert(p == pos + dec_chars(v2).len());
            assert(s@.subrange(pos as int, p as int) == dec_chars(v2));
            lemma_dec_chars_inj(n as int, v2);
        }
    }
    if n > 100 {
        return None;
    }
    match Vote::new(n as i32) {
        Ok(v) => Some((v, p)),
        Err(_) => None,
    }
}

/// Actions whose payloads fit the machine: vote values from the allowed
/// set and position indexes representable as `usize` — exactly what the
/// executable action type can hold.
pub open spec fn wf_action(a: ActionV) -> bool {
    match a {
        ActionV::VoteCasted(v) => is_allowed_value(v),
        ActionV::ResultsApproved(Some(v)) => is_allowed_value(v),
        ActionV::ResultsApproved(None) => true,
        ActionV::StoryPositionChanged(_, idx) => 0 <= idx <= usize::MAX,
        _ => true,
    }
}

/// The leading token of each action's wire form.
pub open spec fn action_tag(a: ActionV) -> Seq<char> {
    match a {
        ActionV::PlayerJoined(_) => "{\"PlayerJoined\":"@,
        ActionV::PlayerLeft => "\"PlayerLeft\""@,
        ActionV::StoriesAdded(_) => "{\"StoriesAdded\":"@,
        ActionV::StoryUpdated(_, _) => "{\"StoryUpdated\":[\""@,
        ActionV::StoryPositionChanged(_, _) => "{\"StoryPositionChanged\":[\""@,
        ActionV::StoryRemoved(_) => "{\"StoryRemoved\":\""@,
        ActionV::VotingOpened(_) => "{\"VotingOpened\":\""@,
        ActionV::VotingClosed => "\"VotingClosed\""@,
        ActionV::VoteCasted(_) => "{\"VoteCasted\":"@,
        ActionV::VotesRevealed => "\"VotesRevealed\""@,
        ActionV::VotesCleared => "\"VotesCleared\""@,
        ActionV::ResultsApproved(_) => "{\"ResultsApproved\":"@,
    }
}

/// A text that begins with an action's wire form begins with its tag.
proof fn lemma_action_tag(s: Seq<char>, pos: int, a: ActionV)
    requires
        begins_with(s, pos, ser_action(a)),
    ensures
        begins_with(s, pos, action_tag(a)),
{
    match a {
        ActionV::PlayerJoined(u) => {
            let t = action_tag(a);
            assert(ser_action(a) == (t + ser_user(u)) + "}"@);
            lemma_begins_with_concat(s, pos, t + ser_user(u), "}"@);
            lemma_begins_with_concat(s, pos, t, ser_user(u));
        },
        ActionV::PlayerLeft => {},
        ActionV::StoriesAdded(ss) => {
            let t = action_tag(a);
            assert(ser_action(a) == (t + ser_stories(ss)) + "}"@);
            lemma_begins_with_concat(s, pos, t + ser_stories(ss), "}"@);
            lemma_begins_with_concat(s, pos, t, ser_stories(ss));
        },
        ActionV::StoryUpdated(id, info) => {
            let t = action_tag(a);
            assert(ser_action(a) == (((t + ser_uuid(id as int)) + "\","@) + ser_story_info(
                info,
            )) + "]}"@);
            lemma_begins_with_concat(s, pos, ((t + ser_uuid(id as int)) + "\","@)
                + ser_story_info(info), "]}"@);
            lemma_begins_with_concat(s, pos, (t + ser_uuid(id as int)) + "\","@,
                ser_story_info(info));
            lemma_begins_with_concat(s, pos, t + ser_uuid(id as int), "\","@);
            lemma_begins_with_concat(s, pos, t, ser_uuid(id as int));
        },
        ActionV::StoryPositionChanged(id, idx) => {
            let t = action_tag(a);
            assert(ser_action(a) == (((t + ser_uuid(id as int)) + "\","@) + dec_chars(idx))
                + "]}"@);
            lemma_begins_with_concat(s, pos, ((t + ser_uuid(id as int)) + "\","@) + dec_chars(
                idx,
            ), "]}"@);
            lemma_begins_with_concat(s, pos, (t + ser_uuid(id as int)) + "\","@, dec_chars(idx));
            lemma_begins_with_concat(s, pos, t + ser_uuid(id as int), "\","@);
            lemma_begins_with_concat(s, pos, t, ser_uuid(id as int));
        },
        ActionV::StoryRemoved(id) => {
            let t = action_tag(a);
            assert(ser_action(a) == (t + ser_uuid(id as int)) + "\"}"@);
            lemma_begins_with_concat(s, pos, t + ser_uuid(id as int), "\"}"@);
            lemma_begins_with_concat(s, pos, t, ser_uuid(id as int));
        },
        ActionV::VotingOpened(id) => {
            let t = action_tag(a);
            assert(ser_action(a) == (t + ser_uuid(id as int)) + "\"}"@);
            lemma_begins_with_concat(s, pos, t + ser_uuid(id as int), "\"}"@);
            lemma_begins_with_concat(s, pos, t, ser_uuid(id as int));
        },
        ActionV::VotingClosed => {},
        ActionV::VoteCasted(v) => {
            let t = action_tag(a);
            assert(ser_action(a) == (t + dec_chars(v)) + "}"@);
            lemma_begins_with_concat(s, pos, t + dec_chars(v), "}"@);
            lemma_begins_with_concat(s, pos, t, dec_chars(v));
        },
        ActionV::VotesRevealed => {},
        ActionV::VotesCleared => {},
        ActionV::ResultsApproved(e) => {
            let t = action_tag(a);
            assert(ser_action(a) == (t + ser_opt_vote(e)) + "}"@);
            lemma_begins_with_concat(s, pos, t + ser_opt_vote(e), "}"@);
            lemma_begins_with_concat(s, pos, t, ser_opt_vote(e));
        },
    }
}

/// Two tokens that disagree within their first eight characters cannot
/// both begin the same text.
proof fn lemma_head_conflict(s: Seq<char>, pos: int, a: Seq<char>, b: Seq<char>)
    requires
        begins_with(s, pos, a),
        a.len() >= 8,
        b.len() >= 8,
        exists|k: int| 0 <= k < 8 && a[k] != #[trigger] b[k],
    ensures
        !begins_with(s, pos, b),
{
    if begins_with(s, pos, b) {
        let k = choose|k: int| 0 <= k < 8 && a[k] != #[trigger] b[k];
        assert(s[pos + k] == s.subrange(pos, pos + a.len() as int)[k]);
        assert(s[pos + k] == s.subrange(pos, pos + b.len() as int)[k]);
    }
}

fn parse_action_player_left(s: &Vec<char>, pos: usize) -> (r: Option<(GameAction, usize)>)
    ensures
        r matches Some((a, p)) ==> pos <= p <= s@.len() && s@.subrange(pos as int, p as int)
            == ser_action(a@),
        r matches Some((a, p)) ==> begins_with(s@, pos as int, "\"PlayerLeft\""@),
        forall|a2: ActionV| #![trigger ser_action(a2)]
            (wf_action(a2) && (a2 matches ActionV::PlayerLeft) && begins_with(s@, pos as int, ser_action(a2))) ==> (r matches Some((a, p)) && p == pos + ser_action(a2).len()),
{
    match eat_lit(s, pos, "\"PlayerLeft\"") {
        Some(p) => {
            proof {
                {
                    assert forall|a2: ActionV| (wf_action(a2) && (a2 matches ActionV::PlayerLeft) && begins_with(s@, pos as int, ser_action(a2))) implies p == pos + ser_action(a2).len() by {
                    if (wf_action(a2) && (a2 matches ActionV::PlayerLeft) && begins_with(s@, pos as int, ser_action(a2))) {
                        match a2 {
                            ActionV::PlayerLeft => {
                                assert(ser_action(a2) == "\"PlayerLeft\""@);
                            },
                            _ => {},
                        }
                    }
                }
                }
            }
            Some((GameAction::PlayerLeft, p))
        },
        None => {
            proof {
                {
                    assert forall|a2: ActionV| !(wf_action(a2) && (a2 matches ActionV::PlayerLeft) && begins_with(s@, pos as int, ser_action(a2))) by {
                    if (wf_action(a2) && (a2 matches ActionV::PlayerLeft) && begins_with(s@, pos as int, ser_action(a2))) {
                        match a2 {
                            ActionV::PlayerLeft => {
                                assert(ser_action(a2) == "\"PlayerLeft\""@);
                                assert(begins_with(s@, pos as int, "\"PlayerLeft\""@));
                            },
                            _ => {},
                        }
                    }
                }
                }
            }
            None
        },
    }
}

fn parse_action_voting_closed(s: &Vec<char>, pos: usize) -> (r: Option<(GameAction, usize)>)
    ensures
        r matches Some((a, p)) ==> pos <= p <= s@.len() && s@.subrange(pos as int, p as int)
            == ser_action(a@),
        r matches Some((a, p)) ==> begins_with(s@, pos as int, "\"VotingClosed\""@),
        forall|a2: ActionV| #![trigger ser_action(a2)]
            (wf_action(a2) && (a2 matches ActionV::VotingClosed) && begins_with(s@, pos as int, ser_action(a2))) ==> (r matches Some((a, p)) && p == pos + ser_action(a2).len()),
{
    match eat_lit(s, pos, "\"VotingClosed\"") {
        Some(p) => {
            proof {
                {
                    assert forall|a2: ActionV| (wf_action(a2) && (a2 matches ActionV::VotingClosed) && begins_with(s@, pos as int, ser_action(a2))) implies p == pos + ser_action(a2).len() by {
                    if (wf_action(a2) && (a2 matches ActionV::VotingClosed) && begins_with(s@, pos as int, ser_action(a2))) {
                        match a2 {
                            ActionV::VotingClosed => {
                                assert(ser_action(a2) == "\"VotingClosed\""@);
                            },
                            _ => {},
                        }
                    }
                }
                }
            }
            Some((GameAction::VotingClosed, p))
        },
        None => {
            proof {
                {
                    assert forall|a2: ActionV| !(wf_action(a2) && (a2 matches ActionV::VotingClosed) && begins_with(s@, pos as int, ser_action(a2))) by {
                    if (wf_action(a2) && (a2 matches ActionV::VotingClosed) && begins_with(s@, pos as int, ser_action(a2))) {
                        match a2 {
                            ActionV::VotingClosed => {
                                assert(ser_action(a2) == "\"VotingClosed\""@);
                                assert(begins_with(s@, pos as int, "\"VotingClosed\""@));
                            },
                            _ => {},
                        }
                    }
                }
                }
            }
            None
        },
    }
}

fn parse_action_votes_revealed(s: &Vec<char>, pos: usize) -> (r: Option<(GameAction, usize)>)
    ensures
        r matches Some((a, p)) ==> pos <= p <= s@.len() && s@.subrange(pos as int, p as int)
            == ser_action(a@),
        r matches Some((a, p)) ==> begins_with(s@, pos as int, "\"VotesRevealed\""@),
        forall|a2: ActionV| #![trigger ser_action(a2)]
            (wf_action(a2) && (a2 matches ActionV::VotesRevealed) && begins_with(s@, pos as int, ser_action(a2))) ==> (r matches Some((a, p)) && p == pos + ser_action(a2).len()),
{
    match eat_lit(s, pos, "\"VotesRevealed\"") {
        Some(p) => {
            proof {
                {
                    assert forall|a2: ActionV| (wf_action(a2) && (a2 matches ActionV::VotesRevealed) && begins_with(s@, pos as int, ser_action(a2))) implies p == pos + ser_action(a2).len() by {
                    if (wf_action(a2) && (a2 matches ActionV::VotesRevealed) && begins_with(s@, pos as int, ser_action(a2))) {
                        match a2 {
                            ActionV::VotesRevealed => {
                                assert(ser_action(a2) == "\"VotesRevealed\""@);
                            },
                            _ => {},
                        }
                    }
                }
                }
            }
            Some((GameAction::VotesRevealed, p))
        },
        None => {
            proof {
                {
                    assert forall|a2: ActionV| !(wf_action(a2) && (a2 matches ActionV::VotesRevealed) && begins_with(s@, pos as int, ser_action(a2))) by {
                    if (wf_action(a2) && (a2 matches ActionV::VotesRevealed) && begins_with(s@, pos as int, ser_action(a2))) {
                        match a2 {
                            ActionV::VotesRevealed => {
                                assert(ser_action(a2) == "\"VotesRevealed\""@);
                                assert(begins_with(s@, pos as int, "\"VotesRevealed\""@));
                            },
                            _ => {},
                        }
                    }
                }
                }
            }
            None
        },
    }
}

fn parse_action_votes_cleared(s: &Vec<char>, pos: usize) -> (r: Option<(GameAction, usize)>)
    ensures
        r matches Some((a, p)) ==> pos <= p <= s@.len() && s@.subrange(pos as int, p as int)
            == ser_action(a@),
        r matches Some((a, p)) ==> begins_with(s@, pos as int, "\"VotesCleared\""@),
        forall|a2: ActionV| #![trigger ser_action(a2)]
            (wf_action(a2) && (a2 matches ActionV::VotesCleared) && begins_with(s@, pos as int, ser_action(a2))) ==> (r matches Some((a, p)) && p == pos + ser_action(a2).len()),
{
    match eat_lit(s, pos, "\"VotesCleared\"") {
        Some(p) => {
            proof {
                {
                    assert forall|a2: ActionV| (wf_action(a2) && (a2 matches ActionV::VotesCleared) && begins_with(s@, pos as int, ser_action(a2))) implies p == pos + ser_action(a2).len() by {
                    if (wf_action(a2) && (a2 matches ActionV::VotesCleared) && begins_with(s@, pos as int, ser_action(a2))) {
                        match a2 {
                            ActionV::VotesCleared => {
                                assert(ser_action(a2) == "\"VotesCleared\""@);
                            },
                            _ => {},
                        }
                    }
                }
                }
            }
            Some((GameAction::VotesCleared, p))
        },
        None => {
            proof {
                {
                    assert forall|a2: ActionV| !(wf_action(a2) && (a2 matches ActionV::VotesCleared) && begins_with(s@, pos as int, ser_action(a2))) by {
                    if (wf_action(a2) && (a2 matches ActionV::VotesCleared) && begins_with(s@, pos as int, ser_action(a2))) {
                        match a2 {
                            ActionV::VotesCleared => {
                                assert(ser_action(a2) == "\"VotesCleared\""@);
                                assert(begins_with(s@, pos as int, "\"VotesCleared\""@));
                            },
                            _ => {},
                        }
                    }
                }
                }
            }
            None
        },
    }
}

fn parse_action_player_joined(s: &Vec<char>, pos: usize) -> (r: Option<(GameAction, usize)>)
    ensures
        r matches Some((a, p)) ==> pos <= p <= s@.len() && s@.subrange(pos as int, p as int)
            == ser_action(a@),
        r matches Some((a, p)) ==> begins_with(s@, pos as int, "{\"PlayerJoined\":"@),
        forall|a2: ActionV| #![trigger ser_action(a2)]
            (wf_action(a2) && (a2 matches ActionV::PlayerJoined(_)) && begins_with(s@, pos as int, ser_action(a2))) ==> (r matches Some((a, p)) && p == pos + ser_action(a2).len()),
{
    let p1 = match eat_lit(s, pos, "{\"PlayerJoined\":") {
        Some(p) => p,
        None => {
            proof {
                {
                    assert forall|a2: ActionV| !(wf_action(a2) && (a2 matches ActionV::PlayerJoined(_)) && begins_with(s@, pos as int, ser_action(a2))) by {
                    if (wf_action(a2) && (a2 matches ActionV::PlayerJoined(_)) && begins_with(s@, pos as int, ser_action(a2))) {
                        match a2 {
                            ActionV::PlayerJoined(u2) => {
                                let t = "{\"PlayerJoined\":"@;
                                assert(ser_action(a2) == (t + ser_user(u2)) + "}"@);
                                lemma_begins_with_concat(s@, pos as int, t + ser_user(u2), "}"@);
                                lemma_begins_with_concat(s@, pos as int, t, ser_user(u2));
                            },
                            _ => {},
                        }
                    }
                }
                }
            }
            return None;
        },
    };
    let (u, p2) = match parse_user(s, p1) {
        Some(x) => x,
        None => {
            proof {
                {
                    assert forall|a2: ActionV| !(wf_action(a2) && (a2 matches ActionV::PlayerJoined(_)) && begins_with(s@, pos as int, ser_action(a2))) by {
                    if (wf_action(a2) && (a2 matches ActionV::PlayerJoined(_)) && begins_with(s@, pos as int, ser_action(a2))) {
                        match a2 {
                            ActionV::PlayerJoined(u2) => {
                                let t = "{\"PlayerJoined\":"@;
                                assert(ser_action(a2) == (t + ser_user(u2)) + "}"@);
                                lemma_begins_with_concat(s@, pos as int, t + ser_user(u2), "}"@);
                                lemma_begins_with_concat(s@, pos as int, t, ser_user(u2));
                            },
                            _ => {},
                        }
                    }
                }
                }
            }
            return None;
        },
    };
    let p3 = match eat_lit(s, p2, "}") {
        Some(p) => p,
        None => {
            proof {
                {
                    assert forall|a2: ActionV| !(wf_action(a2) && (a2 matches ActionV::PlayerJoined(_)) && begins_with(s@, pos as int, ser_action(a2))) by {
                    if (wf_action(a2) && (a2 matches ActionV::PlayerJoined(_)) && begins_with(s@, pos as int, ser_action(a2))) {
                        match a2 {
                            ActionV::PlayerJoined(u2) => {
                                let t = "{\"PlayerJoined\":"@;
                                assert(ser_action(a2) == (t + ser_user(u2)) + "}"@);
                                lemma_begins_with_concat(s@, pos as int, t + ser_user(u2), "}"@);
                                lemma_begins_with_concat(s@, pos as int, t, ser_user(u2));
                            },
                            _ => {},
                        }
                    }
                }
                }
            }
            return None;
        },
    };
    let a = GameAction::PlayerJoined(u);
    proof {
        assert(s@.subrange(pos as int, p3 as int) =~= ser_action(a@));
            {
                assert forall|a2: ActionV| (wf_action(a2) && (a2 matches ActionV::PlayerJoined(_)) && begins_with(s@, pos as int, ser_action(a2))) implies p3 == pos + ser_action(a2).len() by {
                if (wf_action(a2) && (a2 matches ActionV::PlayerJoined(_)) && begins_with(s@, pos as int, ser_action(a2))) {
                    match a2 {
                        ActionV::PlayerJoined(u2) => {
                            let t = "{\"PlayerJoined\":"@;
                            assert(ser_action(a2) == (t + ser_user(u2)) + "}"@);
                            lemma_begins_with_concat(s@, pos as int, t + ser_user(u2), "}"@);
                            lemma_begins_with_concat(s@, pos as int, t, ser_user(u2));
                        },
                        _ => {},
                    }
                }
            }
            }
    }
    Some((a, p3))
}

fn parse_action_stories_added(s: &Vec<char>, pos: usize) -> (r: Option<(GameAction, usize)>)
    ensures
        r matches Some((a, p)) ==> pos <= p <= s@.len() && s@.subrange(pos as int, p as int)
            == ser_action(a@),
        r matches Some((a, p)) ==> begins_with(s@, pos as int, "{\"StoriesAdded\":"@),
        forall|a2: ActionV| #![trigger ser_action(a2)]
            (wf_action(a2) && (a2 matches ActionV::StoriesAdded(_)) && begins_with(s@, pos as int, ser_action(a2))) ==> (r matches Some((a, p)) && p == pos + ser_action(a2).len()),
{
    let p1 = match eat_lit(s, pos, "{\"StoriesAdded\":") {
        Some(p) => p,
        None => {
            proof {
                {
                    assert forall|a2: ActionV| !(wf_action(a2) && (a2 matches ActionV::StoriesAdded(_)) && begins_with(s@, pos as int, ser_action(a2))) by {
                    if (wf_action(a2) && (a2 matches ActionV::StoriesAdded(_)) && begins_with(s@, pos as int, ser_action(a2))) {
                        match a2 {
                            ActionV::StoriesAdded(ss2) => {
                                let t = "{\"StoriesAdded\":"@;
                                assert(ser_action(a2) == (t + ser_stories(ss2)) + "}"@);
                                lemma_begins_with_concat(s@, pos as int, t + ser_stories(ss2), "}"@);
                                lemma_begins_with_concat(s@, pos as int, t, ser_stories(ss2));
                            },
                            _ => {},
                        }
                    }
                }
                }
            }
            return None;
        },
    };
    let (ss, p2) = match parse_stories(s, p1) {
        Some(x) => x,
        None => {
            proof {
                {
                    assert forall|a2: ActionV| !(wf_action(a2) && (a2 matches ActionV::StoriesAdded(_)) && begins_with(s@, pos as int, ser_action(a2))) by {
                    if (wf_action(a2) && (a2 matches ActionV::StoriesAdded(_)) && begins_with(s@, pos as int, ser_action(a2))) {
                        match a2 {
                            ActionV::StoriesAdded(ss2) => {
                                let t = "{\"StoriesAdded\":"@;
                                assert(ser_action(a2) == (t + ser_stories(ss2)) + "}"@);
                                lemma_begins_with_concat(s@, pos as int, t + ser_stories(ss2), "}"@);
                                lemma_begins_with_concat(s@, pos as int, t, ser_stories(ss2));
                            },
                            _ => {},
                        }
                    }
                }
                }
            }
            return None;
        },
    };
    let p3 = match eat_lit(s, p2, "}") {
        Some(p) => p,
        None => {
            proof {
                {
                    assert forall|a2: ActionV| !(wf_action(a2) && (a2 matches ActionV::StoriesAdded(_)) && begins_with(s@, pos as int, ser_action(a2))) by {
                    if (wf_action(a2) && (a2 matches ActionV::StoriesAdded(_)) && begins_with(s@, pos as int, ser_action(a2))) {
                        match a2 {
                            ActionV::StoriesAdded(ss2) => {
                                let t = "{\"StoriesAdded\":"@;
                                assert(ser_action(a2) == (t + ser_stories(ss2)) + "}"@);
                                lemma_begins_with_concat(s@, pos as int, t + ser_stories(ss2), "}"@);
                                lemma_begins_with_concat(s@, pos as int, t, ser_stories(ss2));
                            },
                            _ => {},
                        }
                    }
                }
                }
            }
            return None;
        },
    };
    let a = GameAction::StoriesAdded(ss);
    proof {
        assert(s@.subrange(pos as int, p3 as int) =~= ser_action(a@));
            {
                assert forall|a2: ActionV| (wf_action(a2) && (a2 matches ActionV::StoriesAdded(_)) && begins_with(s@, pos as int, ser_action(a2))) implies p3 == pos + ser_action(a2).len() by {
                if (wf_action(a2) && (a2 matches ActionV::StoriesAdded(_)) && begins_with(s@, pos as int, ser_action(a2))) {
                    match a2 {
                        ActionV::StoriesAdded(ss2) => {
                            let t = "{\"StoriesAdded\":"@;
                            assert(ser_action(a2) == (t + ser_stories(ss2)) + "}"@);
                            lemma_begins_with_concat(s@, pos as int, t + ser_stories(ss2), "}"@);
                            lemma_begins_with_concat(s@, pos as int, t, ser_stories(ss2));
                        },
                        _ => {},
                    }
                }
            }
            }
    }
    Some((a, p3))
}

fn parse_action_story_updated(s: &Vec<char>, pos: usize) -> (r: Option<(GameAction, usize)>)
    ensures
        r matches Some((a, p)) ==> pos <= p <= s@.len() && s@.subrange(pos as int, p as int)
            == ser_action(a@),
        r matches Some((a, p)) ==> begins_with(s@, pos as int, "{\"StoryUpdated\":[\""@),
        forall|a2: ActionV| #![trigger ser_action(a2)]
            (wf_action(a2) && (a2 matches ActionV::StoryUpdated(_, _)) && begins_with(s@, pos as int, ser_action(a2))) ==> (r matches Some((a, p)) && p == pos + ser_action(a2).len()),
{
    let p1 = match eat_lit(s, pos, "{\"StoryUpdated\":[\"") {
        Some(p) => p,
        None => {
            proof {
                {
                    assert forall|a2: ActionV| !(wf_action(a2) && (a2 matches ActionV::StoryUpdated(_, _)) && begins_with(s@, pos as int, ser_action(a2))) by {
                    if (wf_action(a2) && (a2 matches ActionV::StoryUpdated(_, _)) && begins_with(s@, pos as int, ser_action(a2))) {
                        match a2 {
                            ActionV::StoryUpdated(id2, iv2) => {
                                let t = "{\"StoryUpdated\":[\""@;
                                lemma_ser_uuid_shape(id2 as int);
                                assert(ser_action(a2) == (((t + ser_uuid(id2 as int)) + "\","@) + ser_story_info(iv2)) + "]}"@);
                                lemma_begins_with_concat(s@, pos as int, ((t + ser_uuid(id2 as int)) + "\","@) + ser_story_info(iv2), "]}"@);
                                lemma_begins_with_concat(s@, pos as int, (t + ser_uuid(id2 as int)) + "\","@, ser_story_info(iv2));
                                lemma_begins_with_concat(s@, pos as int, t + ser_uuid(id2 as int), "\","@);
                                lemma_begins_with_concat(s@, pos as int, t, ser_uuid(id2 as int));
                            },
                            _ => {},
                        }
                    }
                }
                }
            }
            return None;
        },
    };
    let (id, p2) = match parse_uuid(s, p1) {
        Some(x) => x,
        None => {
            proof {
                {
                    assert forall|a2: ActionV| !(wf_action(a2) && (a2 matches ActionV::StoryUpdated(_, _)) && begins_with(s@, pos as int, ser_action(a2))) by {
                    if (wf_action(a2) && (a2 matches ActionV::StoryUpdated(_, _)) && begins_with(s@, pos as int, ser_action(a2))) {
                        match a2 {
                            ActionV::StoryUpdated(id2, iv2) => {
                                let t = "{\"StoryUpdated\":[\""@;
                                lemma_ser_uuid_shape(id2 as int);
                                assert(ser_action(a2) == (((t + ser_uuid(id2 as int)) + "\","@) + ser_story_info(iv2)) + "]}"@);
                                lemma_begins_with_concat(s@, pos as int, ((t + ser_uuid(id2 as int)) + "\","@) + ser_story_info(iv2), "]}"@);
                                lemma_begins_with_concat(s@, pos as int, (t + ser_uuid(id2 as int)) + "\","@, ser_story_info(iv2));
                                lemma_begins_with_concat(s@, pos as int, t + ser_uuid(id2 as int), "\","@);
                                lemma_begins_with_concat(s@, pos as int, t, ser_uuid(id2 as int));
                            },
                            _ => {},
                        }
                    }
                }
                }
            }
            return None;
        },
    };
    let p3 = match eat_lit(s, p2, "\",") {
        Some(p) => p,
        None => {
            proof {
                {
                    assert forall|a2: ActionV| !(wf_action(a2) && (a2 matches ActionV::StoryUpdated(_, _)) && begins_with(s@, pos as int, ser_action(a2))) by {
                    if (wf_action(a2) && (a2 matches ActionV::StoryUpdated(_, _)) && begins_with(s@, pos as int, ser_action(a2))) {
                        match a2 {
                            ActionV::StoryUpdated(id2, iv2) => {
                                let t = "{\"StoryUpdated\":[\""@;
                                lemma_ser_uuid_shape(id2 as int);
                                assert(ser_action(a2) == (((t + ser_uuid(id2 as int)) + "\","@) + ser_story_info(iv2)) + "]}"@);
                                lemma_begins_with_concat(s@, pos as int, ((t + ser_uuid(id2 as int)) + "\","@) + ser_story_info(iv2), "]}"@);
                                lemma_begins_with_concat(s@, pos as int, (t + ser_uuid(id2 as int)) + "\","@, ser_story_info(iv2));
                                lemma_begins_with_concat(s@, pos as int, t + ser_uuid(id2 as int), "\","@);
                                lemma_begins_with_concat(s@, pos as int, t, ser_uuid(id2 as int));
                            },
                            _ => {},
                        }
                    }
                }
                }
            }
            return None;
        },
    };
    let (info, p4) = match parse_story_info(s, p3) {
        Some(x) => x,
        None => {
            proof {
                {
                    assert forall|a2: ActionV| !(wf_action(a2) && (a2 matches ActionV::StoryUpdated(_, _)) && begins_with(s@, pos as int, ser_action(a2))) by {
                    if (wf_action(a2) && (a2 matches ActionV::StoryUpdated(_, _)) && begins_with(s@, pos as int, ser_action(a2))) {
                        match a2 {
                            ActionV::StoryUpdated(id2, iv2) => {
                                let t = "{\"StoryUpdated\":[\""@;
                                lemma_ser_uuid_shape(id2 as int);
                                assert(ser_action(a2) == (((t + ser_uuid(id2 as int)) + "\","@) + ser_story_info(iv2)) + "]}"@);
                                lemma_begins_with_concat(s@, pos as int, ((t + ser_uuid(id2 as int)) + "\","@) + ser_story_info(iv2), "]}"@);
                                lemma_begins_with_concat(s@, pos as int, (t + ser_uuid(id2 as int)) + "\","@, ser_story_info(iv2));
                                lemma_begins_with_concat(s@, pos as int, t + ser_uuid(id2 as int), "\","@);
                                lemma_begins_with_concat(s@, pos as int, t, ser_uuid(id2 as int));
                            },
                            _ => {},
                        }
                    }
                }
                }
            }
            return None;
        },
    };
    let p5 = match eat_lit(s, p4, "]}") {
        Some(p) => p,
        None => {
            proof {
                {
                    assert forall|a2: ActionV| !(wf_action(a2) && (a2 matches ActionV::StoryUpdated(_, _)) && begins_with(s@, pos as int, ser_action(a2))) by {
                    if (wf_action(a2) && (a2 matches ActionV::StoryUpdated(_, _)) && begins_with(s@, pos as int, ser_action(a2))) {
                        match a2 {
                            ActionV::StoryUpdated(id2, iv2) => {
                                let t = "{\"StoryUpdated\":[\""@;
                                lemma_ser_uuid_shape(id2 as int);
                                assert(ser_action(a2) == (((t + ser_uuid(id2 as int)) + "\","@) + ser_story_info(iv2)) + "]}"@);
                                lemma_begins_with_concat(s@, pos as int, ((t + ser_uuid(id2 as int)) + "\","@) + ser_story_info(iv2), "]}"@);
                                lemma_begins_with_concat(s@, pos as int, (t + ser_uuid(id2 as int)) + "\","@, ser_story_info(iv2));
                                lemma_begins_with_concat(s@, pos as int, t + ser_uuid(id2 as int), "\","@);
                                lemma_begins_with_concat(s@, pos as int, t, ser_uuid(id2 as int));
                            },
                            _ => {},
                        }
                    }
                }
                }
            }
            return None;
        },
    };
    let a = GameAction::StoryUpdated(StoryId(id), info);
    proof {
        assert(s@.subrange(pos as int, p5 as int) =~= ser_action(a@));
            {
                assert forall|a2: ActionV| (wf_action(a2) && (a2 matches ActionV::StoryUpdated(_, _)) && begins_with(s@, pos as int, ser_action(a2))) implies p5 == pos + ser_action(a2).len() by {
                if (wf_action(a2) && (a2 matches ActionV::StoryUpdated(_, _)) && begins_with(s@, pos as int, ser_action(a2))) {
                    match a2 {
                        ActionV::StoryUpdated(id2, iv2) => {
                            let t = "{\"StoryUpdated\":[\""@;
                            lemma_ser_uuid_shape(id2 as int);
                            assert(ser_action(a2) == (((t + ser_uuid(id2 as int)) + "\","@) + ser_story_info(iv2)) + "]}"@);
                            lemma_begins_with_concat(s@, pos as int, ((t + ser_uuid(id2 as int)) + "\","@) + ser_story_info(iv2), "]}"@);
                            lemma_begins_with_concat(s@, pos as int, (t + ser_uuid(id2 as int)) + "\","@, ser_story_info(iv2));
                            lemma_begins_with_concat(s@, pos as int, t + ser_uuid(id2 as int), "\","@);
                            lemma_begins_with_concat(s@, pos as int, t, ser_uuid(id2 as int));
                        },
                        _ => {},
                    }
                }
            }
            }
    }
    Some((a, p5))
}

fn parse_action_story_position_changed(s: &Vec<char>, pos: usize) -> (r: Option<(GameAction, usize)>)
    ensures
        r matches Some((a, p)) ==> pos <= p <= s@.len() && s@.subrange(pos as int, p as int)
            == ser_action(a@),
        r matches Some((a, p)) ==> begins_with(s@, pos as int, "{\"StoryPositionChanged\":[\""@),
        forall|a2: ActionV| #![trigger ser_action(a2)]
            (wf_action(a2) && (a2 matches ActionV::StoryPositionChanged(_, _)) && begins_with(s@, pos as int, ser_action(a2))) ==> (r matches Some((a, p)) && p == pos + ser_action(a2).len()),
{
    proof {
        reveal_strlit("]}");
    }
    let p1 = match eat_lit(s, pos, "{\"StoryPositionChanged\":[\"") {
        Some(p) => p,
        None => {
            proof {
                {
                    assert forall|a2: ActionV| !(wf_action(a2) && (a2 matches ActionV::StoryPositionChanged(_, _)) && begins_with(s@, pos as int, ser_action(a2))) by {
                    if (wf_action(a2) && (a2 matches ActionV::StoryPositionChanged(_, _)) && begins_with(s@, pos as int, ser_action(a2))) {
                        match a2 {
                            ActionV::StoryPositionChanged(id2, idx2) => {
                                let t = "{\"StoryPositionChanged\":[\""@;
                                lemma_ser_uuid_shape(id2 as int);
                                lemma_dec_chars_props(idx2);
                                assert(ser_action(a2) == (((t + ser_uuid(id2 as int)) + "\","@) + dec_chars(idx2)) + "]}"@);
                                lemma_begins_with_concat(s@, pos as int, ((t + ser_uuid(id2 as int)) + "\","@) + dec_chars(idx2), "]}"@);
                                lemma_begins_with_concat(s@, pos as int, (t + ser_uuid(id2 as int)) + "\","@, dec_chars(idx2));
                                lemma_begins_with_concat(s@, pos as int, t + ser_uuid(id2 as int), "\","@);
                                lemma_begins_with_concat(s@, pos as int, t, ser_uuid(id2 as int));
                                let pd = pos + t.len() + 36 + "\","@.len();
                                assert(s@[pd + dec_chars(idx2).len() as int] == s@.subrange(pd + dec_chars(idx2).len() as int, pd + dec_chars(idx2).len() + ("]}"@.len() as int))[0]);
                                assert(s@[pd + dec_chars(idx2).len() as int] == "]}"@[0]);
                                assert(!is_dec_digit(s@[pd + dec_chars(idx2).len() as int]));
                                assert(dec_chars(idx2 as u64 as int) == dec_chars(idx2));
                            },
                            _ => {},
                        }
                    }
                }
                }
            }
            return None;
        },
    };
    let (id, p2) = match parse_uuid(s, p1) {
        Some(x) => x,
        None => {
            proof {
                {
                    assert forall|a2: ActionV| !(wf_action(a2) && (a2 matches ActionV::StoryPositionChanged(_, _)) && begins_with(s@, pos as int, ser_action(a2))) by {
                    if (wf_action(a2) && (a2 matches ActionV::StoryPositionChanged(_, _)) && begins_with(s@, pos as int, ser_action(a2))) {
                        match a2 {
                            ActionV::StoryPositionChanged(id2, idx2) => {
                                let t = "{\"StoryPositionChanged\":[\""@;
                                lemma_ser_uuid_shape(id2 as int);
                                lemma_dec_chars_props(idx2);
                                assert(ser_action(a2) == (((t + ser_uuid(id2 as int)) + "\","@) + dec_chars(idx2)) + "]}"@);
                                lemma_begins_with_concat(s@, pos as int, ((t + ser_uuid(id2 as int)) + "\","@) + dec_chars(idx2), "]}"@);
                                lemma_begins_with_concat(s@, pos as int, (t + ser_uuid(id2 as int)) + "\","@, dec_chars(idx2));
                                lemma_begins_with_concat(s@, pos as int, t + ser_uuid(id2 as int), "\","@);
                                lemma_begins_with_concat(s@, pos as int, t, ser_uuid(id2 as int));
                                let pd = pos + t.len() + 36 + "\","@.len();
                                assert(s@[pd + dec_chars(idx2).len() as int] == s@.subrange(pd + dec_chars(idx2).len() as int, pd + dec_chars(idx2).len() + ("]}"@.len() as int))[0]);
                                assert(s@[pd + dec_chars(idx2).len() as int] == "]}"@[0]);
                                assert(!is_dec_digit(s@[pd + dec_chars(idx2).len() as int]));
                                assert(dec_chars(idx2 as u64 as int) == dec_chars(idx2));
                            },
                            _ => {},
                        }
                    }
                }
                }
            }
            return None;
        },
    };
    let p3 = match eat_lit(s, p2, "\",") {
        Some(p) => p,
        None => {
            proof {
                {
                    assert forall|a2: ActionV| !(wf_action(a2) && (a2 matches ActionV::StoryPositionChanged(_, _)) && begins_with(s@, pos as int, ser_action(a2))) by {
                    if (wf_action(a2) && (a2 matches ActionV::StoryPositionChanged(_, _)) && begins_with(s@, pos as int, ser_action(a2))) {
                        match a2 {
                            ActionV::StoryPositionChanged(id2, idx2) => {
                                let t = "{\"StoryPositionChanged\":[\""@;
                                lemma_ser_uuid_shape(id2 as int);
                                lemma_dec_chars_props(idx2);
                                assert(ser_action(a2) == (((t + ser_uuid(id2 as int)) + "\","@) + dec_chars(idx2)) + "]}"@);
                                lemma_begins_with_concat(s@, pos as int, ((t + ser_uuid(id2 as int)) + "\","@) + dec_chars(idx2), "]}"@);
                                lemma_begins_with_concat(s@, pos as int, (t + ser_uuid(id2 as int)) + "\","@, dec_chars(idx2));
                                lemma_begins_with_concat(s@, pos as int, t + ser_uuid(id2 as int), "\","@);
                                lemma_begins_with_concat(s@, pos as int, t, ser_uuid(id2 as int));
                                let pd = pos + t.len() + 36 + "\","@.len();
                                assert(s@[pd + dec_chars(idx2).len() as int] == s@.subrange(pd + dec_chars(idx2).len() as int, pd + dec_chars(idx2).len() + ("]}"@.len() as int))[0]);
                                assert(s@[pd + dec_chars(idx2).len() as int] == "]}"@[0]);
                                assert(!is_dec_digit(s@[pd + dec_chars(idx2).len() as int]));
                                assert(dec_chars(idx2 as u64 as int) == dec_chars(idx2));
                            },
                            _ => {},
                        }
                    }
                }
                }
            }
            return None;
        },
    };
    let (n, p4) = match parse_dec(s, p3) {
        Some(x) => x,
        None => {
            proof {
                {
                    assert forall|a2: ActionV| !(wf_action(a2) && (a2 matches ActionV::StoryPositionChanged(_, _)) && begins_with(s@, pos as int, ser_action(a2))) by {
                    if (wf_action(a2) && (a2 matches ActionV::StoryPositionChanged(_, _)) && begins_with(s@, pos as int, ser_action(a2))) {
                        match a2 {
                            ActionV::StoryPositionChanged(id2, idx2) => {
                                let t = "{\"StoryPositionChanged\":[\""@;
                                lemma_ser_uuid_shape(id2 as int);
                                lemma_dec_chars_props(idx2);
                                assert(ser_action(a2) == (((t + ser_uuid(id2 as int)) + "\","@) + dec_chars(idx2)) + "]}"@);
                                lemma_begins_with_concat(s@, pos as int, ((t + ser_uuid(id2 as int)) + "\","@) + dec_chars(idx2), "]}"@);
                                lemma_begins_with_concat(s@, pos as int, (t + ser_uuid(id2 as int)) + "\","@, dec_chars(idx2));
                                lemma_begins_with_concat(s@, pos as int, t + ser_uuid(id2 as int), "\","@);
                                lemma_begins_with_concat(s@, pos as int, t, ser_uuid(id2 as int));
                                let pd = pos + t.len() + 36 + "\","@.len();
                                assert(s@[pd + dec_chars(idx2).len() as int] == s@.subrange(pd + dec_chars(idx2).len() as int, pd + dec_chars(idx2).len() + ("]}"@.len() as int))[0]);
                                assert(s@[pd + dec_chars(idx2).len() as int] == "]}"@[0]);
                                assert(!is_dec_digit(s@[pd + dec_chars(idx2).len() as int]));
                                assert(dec_chars(idx2 as u64 as int) == dec_chars(idx2));
                            },
                            _ => {},
                        }
                    }
                }
                }
            }
            return None;
        },
    };
    if n > usize::MAX as u64 {
        proof {
                {
                    assert forall|a2: ActionV| !(wf_action(a2) && (a2 matches ActionV::StoryPositionChanged(_, _)) && begins_with(s@, pos as int, ser_action(a2))) by {
                    if (wf_action(a2) && (a2 matches ActionV::StoryPositionChanged(_, _)) && begins_with(s@, pos as int, ser_action(a2))) {
                        match a2 {
                            ActionV::StoryPositionChanged(id2, idx2) => {
                                let t = "{\"StoryPositionChanged\":[\""@;
                                lemma_ser_uuid_shape(id2 as int);
                                lemma_dec_chars_props(idx2);
                                assert(ser_action(a2) == (((t + ser_uuid(id2 as int)) + "\","@) + dec_chars(idx2)) + "]}"@);
                                lemma_begins_with_concat(s@, pos as int, ((t + ser_uuid(id2 as int)) + "\","@) + dec_chars(idx2), "]}"@);
                                lemma_begins_with_concat(s@, pos as int, (t + ser_uuid(id2 as int)) + "\","@, dec_chars(idx2));
                                lemma_begins_with_concat(s@, pos as int, t + ser_uuid(id2 as int), "\","@);
                                lemma_begins_with_concat(s@, pos as int, t, ser_uuid(id2 as int));
                                let pd = pos + t.len() + 36 + "\","@.len();
                                assert(s@[pd + dec_chars(idx2).len() as int] == s@.subrange(pd + dec_chars(idx2).len() as int, pd + dec_chars(idx2).len() + ("]}"@.len() as int))[0]);
                                assert(s@[pd + dec_chars(idx2).len() as int] == "]}"@[0]);
                                assert(!is_dec_digit(s@[pd + dec_chars(idx2).len() as int]));
                                assert(dec_chars(idx2 as u64 as int) == dec_chars(idx2));
                                assert(p4 == p3 + dec_chars(idx2).len());
                                assert(s@.subrange(p3 as int, p4 as int) == dec_chars(idx2));
                                assert(s@.subrange(p3 as int, p4 as int) == dec_chars(n as int));
                                lemma_dec_chars_inj(n as int, idx2);
                            },
                            _ => {},
                        }
                    }
                }
                }
        }
        return None;
    }
    let p5 = match eat_lit(s, p4, "]}") {
        Some(p) => p,
        None => {
            proof {
                {
                    assert forall|a2: ActionV| !(wf_action(a2) && (a2 matches ActionV::StoryPositionChanged(_, _)) && begins_with(s@, pos as int, ser_action(a2))) by {
                    if (wf_action(a2) && (a2 matches ActionV::StoryPositionChanged(_, _)) && begins_with(s@, pos as int, ser_action(a2))) {
                        match a2 {
                            ActionV::StoryPositionChanged(id2, idx2) => {
                                let t = "{\"StoryPositionChanged\":[\""@;
                                lemma_ser_uuid_shape(id2 as int);
                                lemma_dec_chars_props(idx2);
                                assert(ser_action(a2) == (((t + ser_uuid(id2 as int)) + "\","@) + dec_chars(idx2)) + "]}"@);
                                lemma_begins_with_concat(s@, pos as int, ((t + ser_uuid(id2 as int)) + "\","@) + dec_chars(idx2), "]}"@);
                                lemma_begins_with_concat(s@, pos as int, (t + ser_uuid(id2 as int)) + "\","@, dec_chars(idx2));
                                lemma_begins_with_concat(s@, pos as int, t + ser_uuid(id2 as int), "\","@);
                                lemma_begins_with_concat(s@, pos as int, t, ser_uuid(id2 as int));
                                let pd = pos + t.len() + 36 + "\","@.len();
                                assert(s@[pd + dec_chars(idx2).len() as int] == s@.subrange(pd + dec_chars(idx2).len() as int, pd + dec_chars(idx2).len() + ("]}"@.len() as int))[0]);
                                assert(s@[pd + dec_chars(idx2).len() as int] == "]}"@[0]);
                                assert(!is_dec_digit(s@[pd + dec_chars(idx2).len() as int]));
                                assert(dec_chars(idx2 as u64 as int) == dec_chars(idx2));
                            },
                            _ => {},
                        }
                    }
                }
                }
            }
            return None;
        },
    };
    let a = GameAction::StoryPositionChanged(StoryId(id), n as usize);
    proof {
        assert(s@.subrange(pos as int, p5 as int) =~= ser_action(a@));
            {
                assert forall|a2: ActionV| (wf_action(a2) && (a2 matches ActionV::StoryPositionChanged(_, _)) && begins_with(s@, pos as int, ser_action(a2))) implies p5 == pos + ser_action(a2).len() by {
                if (wf_action(a2) && (a2 matches ActionV::StoryPositionChanged(_, _)) && begins_with(s@, pos as int, ser_action(a2))) {
                    match a2 {
                        ActionV::StoryPositionChanged(id2, idx2) => {
                            let t = "{\"StoryPositionChanged\":[\""@;
                            lemma_ser_uuid_shape(id2 as int);
                            lemma_dec_chars_props(idx2);
                            assert(ser_action(a2) == (((t + ser_uuid(id2 as int)) + "\","@) + dec_chars(idx2)) + "]}"@);
                            lemma_begins_with_concat(s@, pos as int, ((t + ser_uuid(id2 as int)) + "\","@) + dec_chars(idx2), "]}"@);
                            lemma_begins_with_concat(s@, pos as int, (t + ser_uuid(id2 as int)) + "\","@, dec_chars(idx2));
                            lemma_begins_with_concat(s@, pos as int, t + ser_uuid(id2 as int), "\","@);
                            lemma_begins_with_concat(s@, pos as int, t, ser_uuid(id2 as int));
                            let pd = pos + t.len() + 36 + "\","@.len();
                            assert(s@[pd + dec_chars(idx2).len() as int] == s@.subrange(pd + dec_chars(idx2).len() as int, pd + dec_chars(idx2).len() + ("]}"@.len() as int))[0]);
                            assert(s@[pd + dec_chars(idx2).len() as int] == "]}"@[0]);
                            assert(!is_dec_digit(s@[pd + dec_chars(idx2).len() as int]));
                            assert(dec_chars(idx2 as u64 as int) == dec_chars(idx2));
                        },
                        _ => {},
                    }
                }
            }
            }
    }
    Some((a, p5))
}

fn parse_action_story_removed(s: &Vec<char>, pos: usize) -> (r: Option<(GameAction, usize)>)
    ensures
        r matches Some((a, p)) ==> pos <= p <= s@.len() && s@.subrange(pos as int, p as int)
            == ser_action(a@),
        r matches Some((a, p)) ==> begins_with(s@, pos as int, "{\"StoryRemoved\":\""@),
        forall|a2: ActionV| #![trigger ser_action(a2)]
            (wf_action(a2) && (a2 matches ActionV::StoryRemoved(_)) && begins_with(s@, pos as int, ser_action(a2))) ==> (r matches Some((a, p)) && p == pos + ser_action(a2).len()),
{
    let p1 = match eat_lit(s, pos, "{\"StoryRemoved\":\"") {
        Some(p) => p,
        None => {
            proof {
                {
                    assert forall|a2: ActionV| !(wf_action(a2) && (a2 matches ActionV::StoryRemoved(_)) && begins_with(s@, pos as int, ser_action(a2))) by {
                    if (wf_action(a2) && (a2 matches ActionV::StoryRemoved(_)) && begins_with(s@, pos as int, ser_action(a2))) {
                        match a2 {
                            ActionV::StoryRemoved(id2) => {
                                let t = "{\"StoryRemoved\":\""@;
                                lemma_ser_uuid_shape(id2 as int);
                                assert(ser_action(a2) == (t + ser_uuid(id2 as int)) + "\"}"@);
                                lemma_begins_with_concat(s@, pos as int, t + ser_uuid(id2 as int), "\"}"@);
                                lemma_begins_with_concat(s@, pos as int, t, ser_uuid(id2 as int));
                            },
                            _ => {},
                        }
                    }
                }
                }
            }
            return None;
        },
    };
    let (id, p2) = match parse_uuid(s, p1) {
        Some(x) => x,
        None => {
            proof {
                {
                    assert forall|a2: ActionV| !(wf_action(a2) && (a2 matches ActionV::StoryRemoved(_)) && begins_with(s@, pos as int, ser_action(a2))) by {
                    if (wf_action(a2) && (a2 matches ActionV::StoryRemoved(_)) && begins_with(s@, pos as int, ser_action(a2))) {
                        match a2 {
                            ActionV::StoryRemoved(id2) => {
                                let t = "{\"StoryRemoved\":\""@;
                                lemma_ser_uuid_shape(id2 as int);
                                assert(ser_action(a2) == (t + ser_uuid(id2 as int)) + "\"}"@);
                                lemma_begins_with_concat(s@, pos as int, t + ser_uuid(id2 as int), "\"}"@);
                                lemma_begins_with_concat(s@, pos as int, t, ser_uuid(id2 as int));
                            },
                            _ => {},
                        }
                    }
                }
                }
            }
            return None;
        },
    };
    let p3 = match eat_lit(s, p2, "\"}") {
        Some(p) => p,
        None => {
            proof {
                {
                    assert forall|a2: ActionV| !(wf_action(a2) && (a2 matches ActionV::StoryRemoved(_)) && begins_with(s@, pos as int, ser_action(a2))) by {
                    if (wf_action(a2) && (a2 matches ActionV::StoryRemoved(_)) && begins_with(s@, pos as int, ser_action(a2))) {
                        match a2 {
                            ActionV::StoryRemoved(id2) => {
                                let t = "{\"StoryRemoved\":\""@;
                                lemma_ser_uuid_shape(id2 as int);
                                assert(ser_action(a2) == (t + ser_uuid(id2 as int)) + "\"}"@);
                                lemma_begins_with_concat(s@, pos as int, t + ser_uuid(id2 as int), "\"}"@);
                                lemma_begins_with_concat(s@, pos as int, t, ser_uuid(id2 as int));
                            },
                            _ => {},
                        }
                    }
                }
                }
            }
            return None;
        },
    };
    let a = GameAction::StoryRemoved(StoryId(id));
    proof {
        assert(s@.subrange(pos as int, p3 as int) =~= ser_action(a@));
            {
                assert forall|a2: ActionV| (wf_action(a2) && (a2 matches ActionV::StoryRemoved(_)) && begins_with(s@, pos as int, ser_action(a2))) implies p3 == pos + ser_action(a2).len() by {
                if (wf_action(a2) && (a2 matches ActionV::StoryRemoved(_)) && begins_with(s@, pos as int, ser_action(a2))) {
                    match a2 {
                        ActionV::StoryRemoved(id2) => {
                            let t = "{\"StoryRemoved\":\""@;
                            lemma_ser_uuid_shape(id2 as int);
                            assert(ser_action(a2) == (t + ser_uuid(id2 as int)) + "\"}"@);
                            lemma_begins_with_concat(s@, pos as int, t + ser_uuid(id2 as int), "\"}"@);
                            lemma_begins_with_concat(s@, pos as int, t, ser_uuid(id2 as int));
                        },
                        _ => {},
                    }
                }
            }
            }
    }
    Some((a, p3))
}

fn parse_action_voting_opened(s: &Vec<char>, pos: usize) -> (r: Option<(GameAction, usize)>)
    ensures
        r matches Some((a, p)) ==> pos <= p <= s@.len() && s@.subrange(pos as int, p as int)
            == ser_action(a@),
        r matches Some((a, p)) ==> begins_with(s@, pos as int, "{\"VotingOpened\":\""@),
        forall|a2: ActionV| #![trigger ser_action(a2)]
            (wf_action(a2) && (a2 matches ActionV::VotingOpened(_)) && begins_with(s@, pos as int, ser_action(a2))) ==> (r matches Some((a, p)) && p == pos + ser_action(a2).len()),
{
    let p1 = match eat_lit(s, pos, "{\"VotingOpened\":\"") {
        Some(p) => p,
        None => {
            proof {
                {
                    assert forall|a2: ActionV| !(wf_action(a2) && (a2 matches ActionV::VotingOpened(_)) && begins_with(s@, pos as int, ser_action(a2))) by {
                    if (wf_action(a2) && (a2 matches ActionV::VotingOpened(_)) && begins_with(s@, pos as int, ser_action(a2))) {
                        match a2 {
                            ActionV::VotingOpened(id2) => {
                                let t = "{\"VotingOpened\":\""@;
                                lemma_ser_uuid_shape(id2 as int);
                                assert(ser_action(a2) == (t + ser_uuid(id2 as int)) + "\"}"@);
                                lemma_begins_with_concat(s@, pos as int, t + ser_uuid(id2 as int), "\"}"@);
                                lemma_begins_with_concat(s@, pos as int, t, ser_uuid(id2 as int));
                            },
                            _ => {},
                        }
                    }
                }
                }
            }
            return None;
        },
    };
    let (id, p2) = match parse_uuid(s, p1) {
        Some(x) => x,
        None => {
            proof {
                {
                    assert forall|a2: ActionV| !(wf_action(a2) && (a2 matches ActionV::VotingOpened(_)) && begins_with(s@, pos as int, ser_action(a2))) by {
                    if (wf_action(a2) && (a2 matches ActionV::VotingOpened(_)) && begins_with(s@, pos as int, ser_action(a2))) {
                        match a2 {
                            ActionV::VotingOpened(id2) => {
                                let t = "{\"VotingOpened\":\""@;
                                lemma_ser_uuid_shape(id2 as int);
                                assert(ser_action(a2) == (t + ser_uuid(id2 as int)) + "\"}"@);
                                lemma_begins_with_concat(s@, pos as int, t + ser_uuid(id2 as int), "\"}"@);
                                lemma_begins_with_concat(s@, pos as int, t, ser_uuid(id2 as int));
                            },
                            _ => {},
                        }
                    }
                }
                }
            }
            return None;
        },
    };
    let p3 = match eat_lit(s, p2, "\"}") {
        Some(p) => p,
        None => {
            proof {
                {
                    assert forall|a2: ActionV| !(wf_action(a2) && (a2 matches ActionV::VotingOpened(_)) && begins_with(s@, pos as int, ser_action(a2))) by {
                    if (wf_action(a2) && (a2 matches ActionV::VotingOpened(_)) && begins_with(s@, pos as int, ser_action(a2))) {
                        match a2 {
                            ActionV::VotingOpened(id2) => {
                                let t = "{\"VotingOpened\":\""@;
                                lemma_ser_uuid_shape(id2 as int);
                                assert(ser_action(a2) == (t + ser_uuid(id2 as int)) + "\"}"@);
                                lemma_begins_with_concat(s@, pos as int, t + ser_uuid(id2 as int), "\"}"@);
                                lemma_begins_with_concat(s@, pos as int, t, ser_uuid(id2 as int));
                            },
                            _ => {},
                        }
                    }
                }
                }
            }
            return None;
        },
    };
    let a = GameAction::VotingOpened(StoryId(id));
    proof {
        assert(s@.subrange(pos as int, p3 as int) =~= ser_action(a@));
            {
                assert forall|a2: ActionV| (wf_action(a2) && (a2 matches ActionV::VotingOpened(_)) && begins_with(s@, pos as int, ser_action(a2))) implies p3 == pos + ser_action(a2).len() by {
                if (wf_action(a2) && (a2 matches ActionV::VotingOpened(_)) && begins_with(s@, pos as int, ser_action(a2))) {
                    match a2 {
                        ActionV::VotingOpened(id2) => {
                            let t = "{\"VotingOpened\":\""@;
                            lemma_ser_uuid_shape(id2 as int);
                            assert(ser_action(a2) == (t + ser_uuid(id2 as int)) + "\"}"@);
                            lemma_begins_with_concat(s@, pos as int, t + ser_uuid(id2 as int), "\"}"@);
                            lemma_begins_with_concat(s@, pos as int, t, ser_uuid(id2 as int));
                        },
                        _ => {},
                    }
                }
            }
            }
    }
    Some((a, p3))
}

fn parse_action_vote_casted(s: &Vec<char>, pos: usize) -> (r: Option<(GameAction, usize)>)
    ensures
        r matches Some((a, p)) ==> pos <= p <= s@.len() && s@.subrange(pos as int, p as int)
            == ser_action(a@),
        r matches Some((a, p)) ==> begins_with(s@, pos as int, "{\"VoteCasted\":"@),
        forall|a2: ActionV| #![trigger ser_action(a2)]
            (wf_action(a2) && (a2 matches ActionV::VoteCasted(_)) && begins_with(s@, pos as int, ser_action(a2))) ==> (r matches Some((a, p)) && p == pos + ser_action(a2).len()),
{
    proof {
        reveal_strlit("}");
    }
    let p1 = match eat_lit(s, pos, "{\"VoteCasted\":") {
        Some(p) => p,
        None => {
            proof {
                {
                    assert forall|a2: ActionV| !(wf_action(a2) && (a2 matches ActionV::VoteCasted(_)) && begins_with(s@, pos as int, ser_action(a2))) by {
                    if (wf_action(a2) && (a2 matches ActionV::VoteCasted(_)) && begins_with(s@, pos as int, ser_action(a2))) {
                        match a2 {
                            ActionV::VoteCasted(v2) => {
                                let t = "{\"VoteCasted\":"@;
                                lemma_dec_chars_props(v2);
                                assert(ser_action(a2) == (t + dec_chars(v2)) + "}"@);
                                lemma_begins_with_concat(s@, pos as int, t + dec_chars(v2), "}"@);
                                lemma_begins_with_concat(s@, pos as int, t, dec_chars(v2));
                                let pd = pos + t.len();
                                assert(s@[pd + dec_chars(v2).len() as int] == s@.subrange(pd + dec_chars(v2).len() as int, pd + dec_chars(v2).len() + ("}"@.len() as int))[0]);
                                assert(s@[pd + dec_chars(v2).len() as int] == "}"@[0]);
                                assert(!is_dec_digit(s@[pd + dec_chars(v2).len() as int]));
                            },
                            _ => {},
                        }
                    }
                }
                }
            }
            return None;
        },
    };
    let (v, p2) = match parse_vote(s, p1) {
        Some(x) => x,
        None => {
            proof {
                {
                    assert forall|a2: ActionV| !(wf_action(a2) && (a2 matches ActionV::VoteCasted(_)) && begins_with(s@, pos as int, ser_action(a2))) by {
                    if (wf_action(a2) && (a2 matches ActionV::VoteCasted(_)) && begins_with(s@, pos as int, ser_action(a2))) {
                        match a2 {
                            ActionV::VoteCasted(v2) => {
                                let t = "{\"VoteCasted\":"@;
                                lemma_dec_chars_props(v2);
                                assert(ser_action(a2) == (t + dec_chars(v2)) + "}"@);
                                lemma_begins_with_concat(s@, pos as int, t + dec_chars(v2), "}"@);
                                lemma_begins_with_concat(s@, pos as int, t, dec_chars(v2));
                                let pd = pos + t.len();
                                assert(s@[pd + dec_chars(v2).len() as int] == s@.subrange(pd + dec_chars(v2).len() as int, pd + dec_chars(v2).len() + ("}"@.len() as int))[0]);
                                assert(s@[pd + dec_chars(v2).len() as int] == "}"@[0]);
                                assert(!is_dec_digit(s@[pd + dec_chars(v2).len() as int]));
                            },
                            _ => {},
                        }
                    }
                }
                }
            }
            return None;
        },
    };
    let p3 = match eat_lit(s, p2, "}") {
        Some(p) => p,
        None => {
            proof {
                {
                    assert forall|a2: ActionV| !(wf_action(a2) && (a2 matches ActionV::VoteCasted(_)) && begins_with(s@, pos as int, ser_action(a2))) by {
                    if (wf_action(a2) && (a2 matches ActionV::VoteCasted(_)) && begins_with(s@, pos as int, ser_action(a2))) {
                        match a2 {
                            ActionV::VoteCasted(v2) => {
                                let t = "{\"VoteCasted\":"@;
                                lemma_dec_chars_props(v2);
                                assert(ser_action(a2) == (t + dec_chars(v2)) + "}"@);
                                lemma_begins_with_concat(s@, pos as int, t + dec_chars(v2), "}"@);
                                lemma_begins_with_concat(s@, pos as int, t, dec_chars(v2));
                                let pd = pos + t.len();
                                assert(s@[pd + dec_chars(v2).len() as int] == s@.subrange(pd + dec_chars(v2).len() as int, pd + dec_chars(v2).len() + ("}"@.len() as int))[0]);
                                assert(s@[pd + dec_chars(v2).len() as int] == "}"@[0]);
                                assert(!is_dec_digit(s@[pd + dec_chars(v2).len() as int]));
                            },
                            _ => {},
                        }
                    }
                }
                }
            }
            return None;
        },
    };
    let a = GameAction::VoteCasted(v);
    proof {
        assert(s@.subrange(pos as int, p3 as int) =~= ser_action(a@));
            {
                assert forall|a2: ActionV| (wf_action(a2) && (a2 matches ActionV::VoteCasted(_)) && begins_with(s@, pos as int, ser_action(a2))) implies p3 == pos + ser_action(a2).len() by {
                if (wf_action(a2) && (a2 matches ActionV::VoteCasted(_)) && begins_with(s@, pos as int, ser_action(a2))) {
                    match a2 {
                        ActionV::VoteCasted(v2) => {
                            let t = "{\"VoteCasted\":"@;
                            lemma_dec_chars_props(v2);
                            assert(ser_action(a2) == (t + dec_chars(v2)) + "}"@);
                            lemma_begins_with_concat(s@, pos as int, t + dec_chars(v2), "}"@);
                            lemma_begins_with_concat(s@, pos as int, t, dec_chars(v2));
                            let pd = pos + t.len();
                            assert(s@[pd + dec_chars(v2).len() as int] == s@.subrange(pd + dec_chars(v2).len() as int, pd + dec_chars(v2).len() + ("}"@.len() as int))[0]);
                            assert(s@[pd + dec_chars(v2).len() as int] == "}"@[0]);
                            assert(!is_dec_digit(s@[pd + dec_chars(v2).len() as int]));
                        },
                        _ => {},
                    }
                }
            }
            }
    }
    Some((a, p3))
}

fn parse_action_results_approved(s: &Vec<char>, pos: usize) -> (r: Option<(GameAction, usize)>)
    ensures
        r matches Some((a, p)) ==> pos <= p <= s@.len() && s@.subrange(pos as int, p as int)
            == ser_action(a@),
        r matches Some((a, p)) ==> begins_with(s@, pos as int, "{\"ResultsApproved\":"@),
        forall|a2: ActionV| #![trigger ser_action(a2)]
            (wf_action(a2) && (a2 matches ActionV::ResultsApproved(_)) && begins_with(s@, pos as int, ser_action(a2))) ==> (r matches Some((a, p)) && p == pos + ser_action(a2).len()),
{
    proof {
        reveal_strlit("}");
        reveal_strlit("null");
    }
    let p1 = match eat_lit(s, pos, "{\"ResultsApproved\":") {
        Some(p) => p,
        None => {
            proof {
                {
                    assert forall|a2: ActionV| !(wf_action(a2) && (a2 matches ActionV::ResultsApproved(_)) && begins_with(s@, pos as int, ser_action(a2))) by {
                    if (wf_action(a2) && (a2 matches ActionV::ResultsApproved(_)) && begins_with(s@, pos as int, ser_action(a2))) {
                        match a2 {
                            ActionV::ResultsApproved(e2) => {
                                let t = "{\"ResultsApproved\":"@;
                                assert(ser_action(a2) == (t + ser_opt_vote(e2)) + "}"@);
                                lemma_begins_with_concat(s@, pos as int, t + ser_opt_vote(e2), "}"@);
                                lemma_begins_with_concat(s@, pos as int, t, ser_opt_vote(e2));
                                let pd = pos + t.len();
                                assert(s@[pd + ser_opt_vote(e2).len() as int] == s@.subrange(pd + ser_opt_vote(e2).len() as int, pd + ser_opt_vote(e2).len() + ("}"@.len() as int))[0]);
                                assert(s@[pd + ser_opt_vote(e2).len() as int] == "}"@[0]);
                                match e2 {
                                    Some(vv2) => {
                                        lemma_dec_chars_props(vv2);
                                        assert(s@[pd as int] == s@.subrange(pd, pd + (dec_chars(vv2).len() as int))[0]);
                                        assert(s@[pd as int] == dec_chars(vv2)[0]);
                                        assert(is_dec_digit(s@[pd as int]));
                                        assert(!is_dec_digit(s@[pd + ser_opt_vote(e2).len() as int]));
                                        if begins_with(s@, pd, "null"@) {
                                            assert(s@[pd as int] == s@.subrange(pd, pd + ("null"@.len() as int))[0]);
                                            assert(s@[pd as int] == 'n');
                                        }
                                    },
                                    None => {
                                        assert(begins_with(s@, pd, "null"@));
                                        assert(s@[pd as int] == s@.subrange(pd, pd + ("null"@.len() as int))[0]);
                                        assert(s@[pd as int] == 'n');
                                    },
                                }
                            },
                            _ => {},
                        }
                    }
                }
                }
            }
            return None;
        },
    };
    if let Some(p2a) = eat_lit(s, p1, "null") {
        let p2 = match eat_lit(s, p2a, "}") {
            Some(p) => p,
            None => {
                proof {
                    {
                        assert forall|a2: ActionV| !(wf_action(a2) && (a2 matches ActionV::ResultsApproved(_)) && begins_with(s@, pos as int, ser_action(a2))) by {
                        if (wf_action(a2) && (a2 matches ActionV::ResultsApproved(_)) && begins_with(s@, pos as int, ser_action(a2))) {
                            match a2 {
                                ActionV::ResultsApproved(e2) => {
                                    let t = "{\"ResultsApproved\":"@;
                                    assert(ser_action(a2) == (t + ser_opt_vote(e2)) + "}"@);
                                    lemma_begins_with_concat(s@, pos as int, t + ser_opt_vote(e2), "}"@);
                                    lemma_begins_with_concat(s@, pos as int, t, ser_opt_vote(e2));
                                    let pd = pos + t.len();
                                    assert(s@[pd + ser_opt_vote(e2).len() as int] == s@.subrange(pd + ser_opt_vote(e2).len() as int, pd + ser_opt_vote(e2).len() + ("}"@.len() as int))[0]);
                                    assert(s@[pd + ser_opt_vote(e2).len() as int] == "}"@[0]);
                                    match e2 {
                                        Some(vv2) => {
                                            lemma_dec_chars_props(vv2);
                                            assert(s@[pd as int] == s@.subrange(pd, pd + (dec_chars(vv2).len() as int))[0]);
                                            assert(s@[pd as int] == dec_chars(vv2)[0]);
                                            assert(is_dec_digit(s@[pd as int]));
                                            assert(!is_dec_digit(s@[pd + ser_opt_vote(e2).len() as int]));
                                            if begins_with(s@, pd, "null"@) {
                                                assert(s@[pd as int] == s@.subrange(pd, pd + ("null"@.len() as int))[0]);
                                                assert(s@[pd as int] == 'n');
                                            }
                                        },
                                        None => {
                                            assert(begins_with(s@, pd, "null"@));
                                            assert(s@[pd as int] == s@.subrange(pd, pd + ("null"@.len() as int))[0]);
                                            assert(s@[pd as int] == 'n');
                                        },
                                    }
                                },
                                _ => {},
                            }
                        }
                    }
                    }
                }
                return None;
            },
        };
        let a = GameAction::ResultsApproved(None);
        proof {
            assert(s@.subrange(pos as int, p2 as int) =~= ser_action(a@));
                {
                    assert forall|a2: ActionV| (wf_action(a2) && (a2 matches ActionV::ResultsApproved(_)) && begins_with(s@, pos as int, ser_action(a2))) implies p2 == pos + ser_action(a2).len() by {
                    if (wf_action(a2) && (a2 matches ActionV::ResultsApproved(_)) && begins_with(s@, pos as int, ser_action(a2))) {
                        match a2 {
                            ActionV::ResultsApproved(e2) => {
                                let t = "{\"ResultsApproved\":"@;
                                assert(ser_action(a2) == (t + ser_opt_vote(e2)) + "}"@);
                                lemma_begins_with_concat(s@, pos as int, t + ser_opt_vote(e2), "}"@);
                                lemma_begins_with_concat(s@, pos as int, t, ser_opt_vote(e2));
                                let pd = pos + t.len();
                                assert(s@[pd + ser_opt_vote(e2).len() as int] == s@.subrange(pd + ser_opt_vote(e2).len() as int, pd + ser_opt_vote(e2).len() + ("}"@.len() as int))[0]);
                                assert(s@[pd + ser_opt_vote(e2).len() as int] == "}"@[0]);
                                match e2 {
                                    Some(vv2) => {
                                        lemma_dec_chars_props(vv2);
                                        assert(s@[pd as int] == s@.subrange(pd, pd + (dec_chars(vv2).len() as int))[0]);
                                        assert(s@[pd as int] == dec_chars(vv2)[0]);
                                        assert(is_dec_digit(s@[pd as int]));
                                        assert(!is_dec_digit(s@[pd + ser_opt_vote(e2).len() as int]));
                                        if begins_with(s@, pd, "null"@) {
                                            assert(s@[pd as int] == s@.subrange(pd, pd + ("null"@.len() as int))[0]);
                                            assert(s@[pd as int] == 'n');
                                        }
                                    },
                                    None => {
                                        assert(begins_with(s@, pd, "null"@));
                                        assert(s@[pd as int] == s@.subrange(pd, pd + ("null"@.len() as int))[0]);
                                        assert(s@[pd as int] == 'n');
                                    },
                                }
                            },
                            _ => {},
                        }
                    }
                }
                }
        }
        return Some((a, p2));
    }
    let (v, p2) = match parse_vote(s, p1) {
        Some(x) => x,
        None => {
            proof {
                {
                    assert forall|a2: ActionV| !(wf_action(a2) && (a2 matches ActionV::ResultsApproved(_)) && begins_with(s@, pos as int, ser_action(a2))) by {
                    if (wf_action(a2) && (a2 matches ActionV::ResultsApproved(_)) && begins_with(s@, pos as int, ser_action(a2))) {
                        match a2 {
                            ActionV::ResultsApproved(e2) => {
                                let t = "{\"ResultsApproved\":"@;
                                assert(ser_action(a2) == (t + ser_opt_vote(e2)) + "}"@);
                                lemma_begins_with_concat(s@, pos as int, t + ser_opt_vote(e2), "}"@);
                                lemma_begins_with_concat(s@, pos as int, t, ser_opt_vote(e2));
                                let pd = pos + t.len();
                                assert(s@[pd + ser_opt_vote(e2).len() as int] == s@.subrange(pd + ser_opt_vote(e2).len() as int, pd + ser_opt_vote(e2).len() + ("}"@.len() as int))[0]);
                                assert(s@[pd + ser_opt_vote(e2).len() as int] == "}"@[0]);
                                match e2 {
                                    Some(vv2) => {
                                        lemma_dec_chars_props(vv2);
                                        assert(s@[pd as int] == s@.subrange(pd, pd + (dec_chars(vv2).len() as int))[0]);
                                        assert(s@[pd as int] == dec_chars(vv2)[0]);
                                        assert(is_dec_digit(s@[pd as int]));
                                        assert(!is_dec_digit(s@[pd + ser_opt_vote(e2).len() as int]));
                                        if begins_with(s@, pd, "null"@) {
                                            assert(s@[pd as int] == s@.subrange(pd, pd + ("null"@.len() as int))[0]);
                                            assert(s@[pd as int] == 'n');
                                        }
                                    },
                                    None => {
                                        assert(begins_with(s@, pd, "null"@));
                                        assert(s@[pd as int] == s@.subrange(pd, pd + ("null"@.len() as int))[0]);
                                        assert(s@[pd as int] == 'n');
                                    },
                                }
                            },
                            _ => {},
                        }
                    }
                }
                }
            }
            return None;
        },
    };
    let p3 = match eat_lit(s, p2, "}") {
        Some(p) => p,
        None => {
            proof {
                {
                    assert forall|a2: ActionV| !(wf_action(a2) && (a2 matches ActionV::ResultsApproved(_)) && begins_with(s@, pos as int, ser_action(a2))) by {
                    if (wf_action(a2) && (a2 matches ActionV::ResultsApproved(_)) && begins_with(s@, pos as int, ser_action(a2))) {
                        match a2 {
                            ActionV::ResultsApproved(e2) => {
                                let t = "{\"ResultsApproved\":"@;
                                assert(ser_action(a2) == (t + ser_opt_vote(e2)) + "}"@);
                                lemma_begins_with_concat(s@, pos as int, t + ser_opt_vote(e2), "}"@);
                                lemma_begins_with_concat(s@, pos as int, t, ser_opt_vote(e2));
                                let pd = pos + t.len();
                                assert(s@[pd + ser_opt_vote(e2).len() as int] == s@.subrange(pd + ser_opt_vote(e2).len() as int, pd + ser_opt_vote(e2).len() + ("}"@.len() as int))[0]);
                                assert(s@[pd + ser_opt_vote(e2).len() as int] == "}"@[0]);
                                match e2 {
                                    Some(vv2) => {
                                        lemma_dec_chars_props(vv2);
                                        assert(s@[pd as int] == s@.subrange(pd, pd + (dec_chars(vv2).len() as int))[0]);
                                        assert(s@[pd as int] == dec_chars(vv2)[0]);
                                        assert(is_dec_digit(s@[pd as int]));
                                        assert(!is_dec_digit(s@[pd + ser_opt_vote(e2).len() as int]));
                                        if begins_with(s@, pd, "null"@) {
                                            assert(s@[pd as int] == s@.subrange(pd, pd + ("null"@.len() as int))[0]);
                                            assert(s@[pd as int] == 'n');
                                        }
                                    },
                                    None => {
                                        assert(begins_with(s@, pd, "null"@));
                                        assert(s@[pd as int] == s@.subrange(pd, pd + ("null"@.len() as int))[0]);
                                        assert(s@[pd as int] == 'n');
                                    },
                                }
                            },
                            _ => {},
                        }
                    }
                }
                }
            }
            return None;
        },
    };
    let a = GameAction::ResultsApproved(Some(v));
    proof {
        assert(s@.subrange(pos as int, p3 as int) =~= ser_action(a@));
            {
                assert forall|a2: ActionV| (wf_action(a2) && (a2 matches ActionV::ResultsApproved(_)) && begins_with(s@, pos as int, ser_action(a2))) implies p3 == pos + ser_action(a2).len() by {
                if (wf_action(a2) && (a2 matches ActionV::ResultsApproved(_)) && begins_with(s@, pos as int, ser_action(a2))) {
                    match a2 {
                        ActionV::ResultsApproved(e2) => {
                            let t = "{\"ResultsApproved\":"@;
                            assert(ser_action(a2) == (t + ser_opt_vote(e2)) + "}"@);
                            lemma_begins_with_concat(s@, pos as int, t + ser_opt_vote(e2), "}"@);
                            lemma_begins_with_concat(s@, pos as int, t, ser_opt_vote(e2));
                            let pd = pos + t.len();
                            assert(s@[pd + ser_opt_vote(e2).len() as int] == s@.subrange(pd + ser_opt_vote(e2).len() as int, pd + ser_opt_vote(e2).len() + ("}"@.len() as int))[0]);
                            assert(s@[pd + ser_opt_vote(e2).len() as int] == "}"@[0]);
                            match e2 {
                                Some(vv2) => {
                                    lemma_dec_chars_props(vv2);
                                    assert(s@[pd as int] == s@.subrange(pd, pd + (dec_chars(vv2).len() as int))[0]);
                                    assert(s@[pd as int] == dec_chars(vv2)[0]);
                                    assert(is_dec_digit(s@[pd as int]));
                                    assert(!is_dec_digit(s@[pd + ser_opt_vote(e2).len() as int]));
                                    if begins_with(s@, pd, "null"@) {
                                        assert(s@[pd as int] == s@.subrange(pd, pd + ("null"@.len() as int))[0]);
                                        assert(s@[pd as int] == 'n');
                                    }
                                },
                                None => {
                                    assert(begins_with(s@, pd, "null"@));
                                    assert(s@[pd as int] == s@.subrange(pd, pd + ("null"@.len() as int))[0]);
                                    assert(s@[pd as int] == 'n');
                                },
                            }
                        },
                        _ => {},
                    }
                }
            }
            }
    }
    Some((a, p3))
}

/// One action as its wire form.  Strict and complete: an accepted span
/// is exactly the serialization of the result, and a text that begins
/// with the serialization of a well-formed action is accepted up to
/// exactly its length.
#[verifier::rlimit(100)]
fn parse_action(s: &Vec<char>, pos: usize) -> (r: Option<(GameAction, usize)>)
    ensures
        r matches Some((a, p)) ==> pos <= p <= s@.len() && s@.subrange(pos as int, p as int)
            == ser_action(a@),
        forall|a2: ActionV| #![trigger ser_action(a2)]
            (wf_action(a2) && begins_with(s@, pos as int, ser_action(a2))) ==> (r matches Some(
                (a, p),
            ) && p == pos + ser_action(a2).len()),
{
    proof {
        reveal_strlit("{\"PlayerJoined\":");
        reveal_strlit("\"PlayerLeft\"");
        reveal_strlit("{\"StoriesAdded\":");
        reveal_strlit("{\"StoryUpdated\":[\"");
        reveal_strlit("{\"StoryPositionChanged\":[\"");
        reveal_strlit("{\"StoryRemoved\":\"");
        reveal_strlit("{\"VotingOpened\":\"");
        reveal_strlit("\"VotingClosed\"");
        reveal_strlit("{\"VoteCasted\":");
        reveal_strlit("\"VotesRevealed\"");
        reveal_strlit("\"VotesCleared\"");
        reveal_strlit("{\"ResultsApproved\":");
    }
    if let Some(x) = parse_action_player_left(s, pos) {
        proof {
            assert forall|a2: ActionV| (wf_action(a2) && begins_with(s@, pos as int, ser_action(a2))) implies x.1 == pos + ser_action(a2).len() by {
                if (wf_action(a2) && begins_with(s@, pos as int, ser_action(a2))) {
                    lemma_action_tag(s@, pos as int, a2);
                    if !(a2 matches ActionV::PlayerLeft) {
                let bt = action_tag(a2);
                if "\"PlayerLeft\""@[0] != bt[0] {
                } else if "\"PlayerLeft\""@[1] != bt[1] {
                } else if "\"PlayerLeft\""@[2] != bt[2] {
                } else if "\"PlayerLeft\""@[3] != bt[3] {
                } else if "\"PlayerLeft\""@[4] != bt[4] {
                } else if "\"PlayerLeft\""@[5] != bt[5] {
                } else if "\"PlayerLeft\""@[6] != bt[6] {
                } else if "\"PlayerLeft\""@[7] != bt[7] {
                } else {
                    assert(false);
                }
                lemma_head_conflict(s@, pos as int, "\"PlayerLeft\""@, bt);
                    }
                }
            }
        }
        return Some(x);
    }
    if let Some(x) = parse_action_voting_closed(s, pos) {
        proof {
            assert forall|a2: ActionV| (wf_action(a2) && begins_with(s@, pos as int, ser_action(a2))) implies x.1 == pos + ser_action(a2).len() by {
                if (wf_action(a2) && begins_with(s@, pos as int, ser_action(a2))) {
                    lemma_action_tag(s@, pos as int, a2);
                    if !(a2 matches ActionV::VotingClosed) {
                let bt = action_tag(a2);
                if "\"VotingClosed\""@[0] != bt[0] {
                } else if "\"VotingClosed\""@[1] != bt[1] {
                } else if "\"VotingClosed\""@[2] != bt[2] {
                } else if "\"VotingClosed\""@[3] != bt[3] {
                } else if "\"VotingClosed\""@[4] != bt[4] {
                } else if "\"VotingClosed\""@[5] != bt[5] {
                } else if "\"VotingClosed\""@[6] != bt[6] {
                } else if "\"VotingClosed\""@[7] != bt[7] {
                } else {
                    assert(false);
                }
                lemma_head_conflict(s@, pos as int, "\"VotingClosed\""@, bt);
                    }
                }
            }
        }
        return Some(x);
    }
    if let Some(x) = parse_action_votes_revealed(s, pos) {
        proof {
            assert forall|a2: ActionV| (wf_action(a2) && begins_with(s@, pos as int, ser_action(a2))) implies x.1 == pos + ser_action(a2).len() by {
                if (wf_action(a2) && begins_with(s@, pos as int, ser_action(a2))) {
                    lemma_action_tag(s@, pos as int, a2);
                    if !(a2 matches ActionV::VotesRevealed) {
                let bt = action_tag(a2);
                if "\"VotesRevealed\""@[0] != bt[0] {
                } else if "\"VotesRevealed\""@[1] != bt[1] {
                } else if "\"VotesRevealed\""@[2] != bt[2] {
                } else if "\"VotesRevealed\""@[3] != bt[3] {
                } else if "\"VotesRevealed\""@[4] != bt[4] {
                } else if "\"VotesRevealed\""@[5] != bt[5] {
                } else if "\"VotesRevealed\""@[6] != bt[6] {
                } else if "\"VotesRevealed\""@[7] != bt[7] {
                } else {
                    assert(false);
                }
                lemma_head_conflict(s@, pos as int, "\"VotesRevealed\""@, bt);
                    }
                }
            }
        }
        return Some(x);
    }
    if let Some(x) = parse_action_votes_cleared(s, pos) {
        proof {
            assert forall|a2: ActionV| (wf_action(a2) && begins_with(s@, pos as int, ser_action(a2))) implies x.1 == pos + ser_action(a2).len() by {
                if (wf_action(a2) && begins_with(s@, pos as int, ser_action(a2))) {
                    lemma_action_tag(s@, pos as int, a2);
                    if !(a2 matches ActionV::VotesCleared) {
                let bt = action_tag(a2);
                if "\"VotesCleared\""@[0] != bt[0] {
                } else if "\"VotesCleared\""@[1] != bt[1] {
                } else if "\"VotesCleared\""@[2] != bt[2] {
                } else if "\"VotesCleared\""@[3] != bt[3] {
                } else if "\"VotesCleared\""@[4] != bt[4] {
                } else if "\"VotesCleared\""@[5] != bt[5] {
                } else if "\"VotesCleared\""@[6] != bt[6] {
                } else if "\"VotesCleared\""@[7] != bt[7] {
                } else {
                    assert(false);
                }
                lemma_head_conflict(s@, pos as int, "\"VotesCleared\""@, bt);
                    }
                }
            }
        }
        return Some(x);
    }
    if let Some(x) = parse_action_player_joined(s, pos) {
        proof {
            assert forall|a2: ActionV| (wf_action(a2) && begins_with(s@, pos as int, ser_action(a2))) implies x.1 == pos + ser_action(a2).len() by {
                if (wf_action(a2) && begins_with(s@, pos as int, ser_action(a2))) {
                    lemma_action_tag(s@, pos as int, a2);
                    if !(a2 matches ActionV::PlayerJoined(_)) {
                let bt = action_tag(a2);
                if "{\"PlayerJoined\":"@[0] != bt[0] {
                } else if "{\"PlayerJoined\":"@[1] != bt[1] {
                } else if "{\"PlayerJoined\":"@[2] != bt[2] {
                } else if "{\"PlayerJoined\":"@[3] != bt[3] {
                } else if "{\"PlayerJoined\":"@[4] != bt[4] {
                } else if "{\"PlayerJoined\":"@[5] != bt[5] {
                } else if "{\"PlayerJoined\":"@[6] != bt[6] {
                } else if "{\"PlayerJoined\":"@[7] != bt[7] {
                } else {
                    assert(false);
                }
                lemma_head_conflict(s@, pos as int, "{\"PlayerJoined\":"@, bt);
                    }
                }
            }
        }
        return Some(x);
    }
    if let Some(x) = parse_action_stories_added(s, pos) {
        proof {
            assert forall|a2: ActionV| (wf_action(a2) && begins_with(s@, pos as int, ser_action(a2))) implies x.1 == pos + ser_action(a2).len() by {
                if (wf_action(a2) && begins_with(s@, pos as int, ser_action(a2))) {
                    lemma_action_tag(s@, pos as int, a2);
                    if !(a2 matches ActionV::StoriesAdded(_)) {
                let bt = action_tag(a2);
                if "{\"StoriesAdded\":"@[0] != bt[0] {
                } else if "{\"StoriesAdded\":"@[1] != bt[1] {
                } else if "{\"StoriesAdded\":"@[2] != bt[2] {
                } else if "{\"StoriesAdded\":"@[3] != bt[3] {
                } else if "{\"StoriesAdded\":"@[4] != bt[4] {
                } else if "{\"StoriesAdded\":"@[5] != bt[5] {
                } else if "{\"StoriesAdded\":"@[6] != bt[6] {
                } else if "{\"StoriesAdded\":"@[7] != bt[7] {
                } else {
                    assert(false);
                }
                lemma_head_conflict(s@, pos as int, "{\"StoriesAdded\":"@, bt);
                    }
                }
            }
        }
        return Some(x);
    }
    if let Some(x) = parse_action_story_updated(s, pos) {
        proof {
            assert forall|a2: ActionV| (wf_action(a2) && begins_with(s@, pos as int, ser_action(a2))) implies x.1 == pos + ser_action(a2).len() by {
                if (wf_action(a2) && begins_with(s@, pos as int, ser_action(a2))) {
                    lemma_action_tag(s@, pos as int, a2);
                    if !(a2 matches ActionV::StoryUpdated(_, _)) {
                let bt = action_tag(a2);
                if "{\"StoryUpdated\":[\""@[0] != bt[0] {
                } else if "{\"StoryUpdated\":[\""@[1] != bt[1] {
                } else if "{\"StoryUpdated\":[\""@[2] != bt[2] {
                } else if "{\"StoryUpdated\":[\""@[3] != bt[3] {
                } else if "{\"StoryUpdated\":[\""@[4] != bt[4] {
                } else if "{\"StoryUpdated\":[\""@[5] != bt[5] {
                } else if "{\"StoryUpdated\":[\""@[6] != bt[6] {
                } else if "{\"StoryUpdated\":[\""@[7] != bt[7] {
                } else {
                    assert(false);
                }
                lemma_head_conflict(s@, pos as int, "{\"StoryUpdated\":[\""@, bt);
                    }
                }
            }
        }
        return Some(x);
    }
    if let Some(x) = parse_action_story_position_changed(s, pos) {
        proof {
            assert forall|a2: ActionV| (wf_action(a2) && begins_with(s@, pos as int, ser_action(a2))) implies x.1 == pos + ser_action(a2).len() by {
                if (wf_action(a2) && begins_with(s@, pos as int, ser_action(a2))) {
                    lemma_action_tag(s@, pos as int, a2);
                    if !(a2 matches ActionV::StoryPositionChanged(_, _)) {
                let bt = action_tag(a2);
                if "{\"StoryPositionChanged\":[\""@[0] != bt[0] {
                } else if "{\"StoryPositionChanged\":[\""@[1] != bt[1] {
                } else if "{\"StoryPositionChanged\":[\""@[2] != bt[2] {
                } else if "{\"StoryPositionChanged\":[\""@[3] != bt[3] {
                } else if "{\"StoryPositionChanged\":[\""@[4] != bt[4] {
                } else if "{\"StoryPositionChanged\":[\""@[5] != bt[5] {
                } else if "{\"StoryPositionChanged\":[\""@[6] != bt[6] {
                } else if "{\"StoryPositionChanged\":[\""@[7] != bt[7] {
                } else {
                    assert(false);
                }
                lemma_head_conflict(s@, pos as int, "{\"StoryPositionChanged\":[\""@, bt);
                    }
                }
            }
        }
        return Some(x);
    }
    if let Some(x) = parse_action_story_removed(s, pos) {
        proof {
            assert forall|a2: ActionV| (wf_action(a2) && begins_with(s@, pos as int, ser_action(a2))) implies x.1 == pos + ser_action(a2).len() by {
                if (wf_action(a2) && begins_with(s@, pos as int, ser_action(a2))) {
                    lemma_action_tag(s@, pos as int, a2);
                    if !(a2 matches ActionV::StoryRemoved(_)) {
                let bt = action_tag(a2);
                if "{\"StoryRemoved\":\""@[0] != bt[0] {
                } else if "{\"StoryRemoved\":\""@[1] != bt[1] {
                } else if "{\"StoryRemoved\":\""@[2] != bt[2] {
                } else if "{\"StoryRemoved\":\""@[3] != bt[3] {
                } else if "{\"StoryRemoved\":\""@[4] != bt[4] {
                } else if "{\"StoryRemoved\":\""@[5] != bt[5] {
                } else if "{\"StoryRemoved\":\""@[6] != bt[6] {
                } else if "{\"StoryRemoved\":\""@[7] != bt[7] {
                } else {
                    assert(false);
                }
                lemma_head_conflict(s@, pos as int, "{\"StoryRemoved\":\""@, bt);
                    }
                }
            }
        }
        return Some(x);
    }
    if let Some(x) = parse_action_voting_opened(s, pos) {
        proof {
            assert forall|a2: ActionV| (wf_action(a2) && begins_with(s@, pos as int, ser_action(a2))) implies x.1 == pos + ser_action(a2).len() by {
                if (wf_action(a2) && begins_with(s@, pos as int, ser_action(a2))) {
                    lemma_action_tag(s@, pos as int, a2);
                    if !(a2 matches ActionV::VotingOpened(_)) {
                let bt = action_tag(a2);
                if "{\"VotingOpened\":\""@[0] != bt[0] {
                } else if "{\"VotingOpened\":\""@[1] != bt[1] {
                } else if "{\"VotingOpened\":\""@[2] != bt[2] {
                } else if "{\"VotingOpened\":\""@[3] != bt[3] {
                } else if "{\"VotingOpened\":\""@[4] != bt[4] {
                } else if "{\"VotingOpened\":\""@[5] != bt[5] {
                } else if "{\"VotingOpened\":\""@[6] != bt[6] {
                } else if "{\"VotingOpened\":\""@[7] != bt[7] {
                } else {
                    assert(false);
                }
                lemma_head_conflict(s@, pos as int, "{\"VotingOpened\":\""@, bt);
                    }
                }
            }
        }
        return Some(x);
    }
    if let Some(x) = parse_action_vote_casted(s, pos) {
        proof {
            assert forall|a2: ActionV| (wf_action(a2) && begins_with(s@, pos as int, ser_action(a2))) implies x.1 == pos + ser_action(a2).len() by {
                if (wf_action(a2) && begins_with(s@, pos as int, ser_action(a2))) {
                    lemma_action_tag(s@, pos as int, a2);
                    if !(a2 matches ActionV::VoteCasted(_)) {
                let bt = action_tag(a2);
                if "{\"VoteCasted\":"@[0] != bt[0] {
                } else if "{\"VoteCasted\":"@[1] != bt[1] {
                } else if "{\"VoteCasted\":"@[2] != bt[2] {
                } else if "{\"VoteCasted\":"@[3] != bt[3] {
                } else if "{\"VoteCasted\":"@[4] != bt[4] {
                } else if "{\"VoteCasted\":"@[5] != bt[5] {
                } else if "{\"VoteCasted\":"@[6] != bt[6] {
                } else if "{\"VoteCasted\":"@[7] != bt[7] {
                } else {
                    assert(false);
                }
                lemma_head_conflict(s@, pos as int, "{\"VoteCasted\":"@, bt);
                    }
                }
            }
        }
        return Some(x);
    }
    if let Some(x) = parse_action_results_approved(s, pos) {
        proof {
            assert forall|a2: ActionV| (wf_action(a2) && begins_with(s@, pos as int, ser_action(a2))) implies x.1 == pos + ser_action(a2).len() by {
                if (wf_action(a2) && begins_with(s@, pos as int, ser_action(a2))) {
                    lemma_action_tag(s@, pos as int, a2);
                    if !(a2 matches ActionV::ResultsApproved(_)) {
                let bt = action_tag(a2);
                if "{\"ResultsApproved\":"@[0] != bt[0] {
                } else if "{\"ResultsApproved\":"@[1] != bt[1] {
                } else if "{\"ResultsApproved\":"@[2] != bt[2] {
                } else if "{\"ResultsApproved\":"@[3] != bt[3] {
                } else if "{\"ResultsApproved\":"@[4] != bt[4] {
                } else if "{\"ResultsApproved\":"@[5] != bt[5] {
                } else if "{\"ResultsApproved\":"@[6] != bt[6] {
                } else if "{\"ResultsApproved\":"@[7] != bt[7] {
                } else {
                    assert(false);
                }
                lemma_head_conflict(s@, pos as int, "{\"ResultsApproved\":"@, bt);
                    }
                }
            }
        }
        return Some(x);
    }
    proof {
        assert forall|a2: ActionV| !(wf_action(a2) && begins_with(s@, pos as int, ser_action(a2))) by {
            if (wf_action(a2) && begins_with(s@, pos as int, ser_action(a2))) {
                match a2 {
                    ActionV::PlayerJoined(_) => {},
                    ActionV::PlayerLeft => {},
                    ActionV::StoriesAdded(_) => {},
                    ActionV::StoryUpdated(_, _) => {},
                    ActionV::StoryPositionChanged(_, _) => {},
                    ActionV::StoryRemoved(_) => {},
                    ActionV::VotingOpened(_) => {},
                    ActionV::VotingClosed => {},
                    ActionV::VoteCasted(_) => {},
                    ActionV::VotesRevealed => {},
                    ActionV::VotesCleared => {},
                    ActionV::ResultsApproved(_) => {},
                }
            }
        }
    }
    None
}

/// Where the pieces of a serialized game message sit in a text
/// beginning with it.
proof fn lemma_game_message_parts(s: Seq<char>, pos: int, uid: u128, a: ActionV)
    requires
        begins_with(s, pos, ser_event(AppEventV::GameMessage(uid, a))),
    ensures
        begins_with(s, pos, "{\"GameMessage\":[\""@),
        begins_with(s, pos + "{\"GameMessage\":[\""@.len(), ser_uuid(uid as int)),
        ser_uuid(uid as int).len() == 36,
        begins_with(s, pos + "{\"GameMessage\":[\""@.len() + 36, "\","@),
        begins_with(
            s,
            pos + "{\"GameMessage\":[\""@.len() + 36 + "\","@.len(),
            ser_action(a),
        ),
        begins_with(
            s,
            pos + "{\"GameMessage\":[\""@.len() + 36 + "\","@.len() + ser_action(a).len(),
            "]}"@,
        ),
        ser_event(AppEventV::GameMessage(uid, a)).len() == "{\"GameMessage\":[\""@.len() + 36
            + "\","@.len() + ser_action(a).len() + "]}"@.len(),
{
    lemma_ser_uuid_shape(uid as int);
    let l1 = "{\"GameMessage\":[\""@;
    let b = ser_uuid(uid as int);
    let l2 = "\","@;
    let d = ser_action(a);
    let l3 = "]}"@;
    assert(ser_event(AppEventV::GameMessage(uid, a)) == (((l1 + b) + l2) + d) + l3);
    lemma_begins_with_concat(s, pos, ((l1 + b) + l2) + d, l3);
    lemma_begins_with_concat(s, pos, (l1 + b) + l2, d);
    lemma_begins_with_concat(s, pos, l1 + b, l2);
    lemma_begins_with_concat(s, pos, l1, b);
}

/// Parses one inbound frame as a `GameMessage`.  The parser is strict:
/// an accepted text is exactly the serialization of the result, so
/// re-serializing what was parsed reproduces the input text.
pub fn wire_to_game_message(s: &str) -> (r: Option<(UserId, GameAction)>)
    ensures
        r matches Some((uid, a)) ==> s@ == ser_event(AppEventV::GameMessage(uid.0, a@)),
        forall|uid2: u128, a2: ActionV|
            #![trigger ser_event(AppEventV::GameMessage(uid2, a2))]
            (wf_action(a2) && s@ == ser_event(AppEventV::GameMessage(uid2, a2))) ==> r is Some,
{
    let cs = str_to_chars(s);
    let p1 = match eat_lit(&cs, 0, "{\"GameMessage\":[\"") {
        Some(p) => p,
        None => {
            proof {
                assert forall|uid2: u128, a2: ActionV|
                    !(wf_action(a2) && s@ == ser_event(AppEventV::GameMessage(uid2, a2))) by {
                    if wf_action(a2) && s@ == ser_event(AppEventV::GameMessage(uid2, a2)) {
                        assert(cs@.subrange(0, ser_event(
                            AppEventV::GameMessage(uid2, a2),
                        ).len() as int) =~= cs@);
                        assert(begins_with(cs@, 0, ser_event(AppEventV::GameMessage(uid2, a2))));
                        lemma_game_message_parts(cs@, 0, uid2, a2);
                    }
                }
            }
            return None;
        },
    };
    let (t, p2) = match parse_uuid(&cs, p1) {
        Some(x) => x,
        None => {
            proof {
                assert forall|uid2: u128, a2: ActionV|
                    !(wf_action(a2) && s@ == ser_event(AppEventV::GameMessage(uid2, a2))) by {
                    if wf_action(a2) && s@ == ser_event(AppEventV::GameMessage(uid2, a2)) {
                        assert(cs@.subrange(0, ser_event(
                            AppEventV::GameMessage(uid2, a2),
                        ).len() as int) =~= cs@);
                        assert(begins_with(cs@, 0, ser_event(AppEventV::GameMessage(uid2, a2))));
                        lemma_game_message_parts(cs@, 0, uid2, a2);
                    }
                }
            }
            return None;
        },
    };
    let p3 = match eat_lit(&cs, p2, "\",") {
        Some(p) => p,
        None => {
            proof {
                assert forall|uid2: u128, a2: ActionV|
                    !(wf_action(a2) && s@ == ser_event(AppEventV::GameMessage(uid2, a2))) by {
                    if wf_action(a2) && s@ == ser_event(AppEventV::GameMessage(uid2, a2)) {
                        assert(cs@.subrange(0, ser_event(
                            AppEventV::GameMessage(uid2, a2),
                        ).len() as int) =~= cs@);
                        assert(begins_with(cs@, 0, ser_event(AppEventV::GameMessage(uid2, a2))));
                        lemma_game_message_parts(cs@, 0, uid2, a2);
                    }
                }
            }
            return None;
        },
    };
    let (a, p4) = match parse_action(&cs, p3) {
        Some(x) => x,
        None => {
            proof {
                assert forall|uid2: u128, a2: ActionV|
                    !(wf_action(a2) && s@ == ser_event(AppEventV::GameMessage(uid2, a2))) by {
                    if wf_action(a2) && s@ == ser_event(AppEventV::GameMessage(uid2, a2)) {
                        assert(cs@.subrange(0, ser_event(
                            AppEventV::GameMessage(uid2, a2),
                        ).len() as int) =~= cs@);
                        assert(begins_with(cs@, 0, ser_event(AppEventV::GameMessage(uid2, a2))));
                        lemma_game_message_parts(cs@, 0, uid2, a2);
                    }
                }
            }
            return None;
        },
    };
    let p5 = match eat_lit(&cs, p4, "]}") {
        Some(p) => p,
        None => {
            proof {
                assert forall|uid2: u128, a2: ActionV|
                    !(wf_action(a2) && s@ == ser_event(AppEventV::GameMessage(uid2, a2))) by {
                    if wf_action(a2) && s@ == ser_event(AppEventV::GameMessage(uid2, a2)) {
                        assert(cs@.subrange(0, ser_event(
                            AppEventV::GameMessage(uid2, a2),
                        ).len() as int) =~= cs@);
                        assert(begins_with(cs@, 0, ser_event(AppEventV::GameMessage(uid2, a2))));
                        lemma_game_message_parts(cs@, 0, uid2, a2);
                    }
                }
            }
            return None;
        },
    };
    if p5 != cs.len() {
        proof {
            assert forall|uid2: u128, a2: ActionV|
                !(wf_action(a2) && s@ == ser_event(AppEventV::GameMessage(uid2, a2))) by {
                if wf_action(a2) && s@ == ser_event(AppEventV::GameMessage(uid2, a2)) {
                assert(cs@.subrange(0, ser_event(
                    AppEventV::GameMessage(uid2, a2),
                ).len() as int) =~= cs@);
                assert(begins_with(cs@, 0, ser_event(AppEventV::GameMessage(uid2, a2))));
                lemma_game_message_parts(cs@, 0, uid2, a2);
                }
            }
        }
        return None;
    }
    let uid = UserId(t);
    proof {
        assert(cs@.subrange(0, p5 as int) =~= cs@);
        assert(s@ =~= ser_event(AppEventV::GameMessage(uid.0, a@)));
    }
    Some((uid, a))
}

/// Parses the create-session request body: one user in its wire form.
pub fn wire_to_user(s: &str) -> (r: Option<User>)
    ensures
        r matches Some(u) ==> s@ == ser_user(u@),
        forall|u2: UserV| s@ == ser_user(u2) ==> r is Some,
{
    let cs = str_to_chars(s);
    match parse_user(&cs, 0) {
        Some((u, p)) => {
            if p == cs.len() {
                proof {
                    assert(cs@.subrange(0, p as int) =~= cs@);
                }
                Some(u)
            } else {
                proof {
                    assert forall|u2: UserV| s@ != ser_user(u2) by {
                        if s@ == ser_user(u2) {
                            assert(cs@.subrange(0, ser_user(u2).len() as int) =~= cs@);
                            assert(begins_with(cs@, 0, ser_user(u2)));
                        }
                    }
                }
                None
            }
        },
        None => {
            proof {
                assert forall|u2: UserV| s@ != ser_user(u2) by {
                    if s@ == ser_user(u2) {
                        assert(cs@.subrange(0, ser_user(u2).len() as int) =~= cs@);
                        assert(begins_with(cs@, 0, ser_user(u2)));
                    }
                }
            }
            None
        },
    }
}

/// The canonical text of a session id.
pub fn game_id_to_text(id: GameId) -> (r: String)
    ensures
        r@ == ser_uuid(id.0 as int),
{
    let mut out: Vec<char> = Vec::new();
    push_uuid(&mut out, id.0);
    proof {
        assert(out@ =~= ser_uuid(id.0 as int));
    }
    chars_to_string(&out)
}

/// Parses the canonical text form of a session id, as it stands in the
/// connection path.
pub fn parse_game_id(s: &str) -> (r: Option<GameId>)
    ensures
        r matches Some(id) ==> s@ == ser_uuid(id.0 as int),
        forall|t: u128| s@ == ser_uuid(t as int) ==> r is Some,
{
    let cs = str_to_chars(s);
    match parse_uuid(&cs, 0) {
        Some((t, p)) => {
            if p == cs.len() {
                proof {
                    assert(cs@.subrange(0, p as int) =~= cs@);
                }
                Some(GameId(t))
            } else {
                proof {
                    assert forall|t2: u128| s@ != ser_uuid(t2 as int) by {
                        if s@ == ser_uuid(t2 as int) {
                            lemma_ser_uuid_shape(t2 as int);
                        }
                    }
                }
                None
            }
        },
        None => {
            proof {
                assert forall|t2: u128| s@ != ser_uuid(t2 as int) by {
                    if s@ == ser_uuid(t2 as int) {
                        lemma_ser_uuid_shape(t2 as int);
                        assert(cs@.subrange(0, 36) =~= cs@);
                    }
                }
            }
            None
        },
    }
}

} // verus!
