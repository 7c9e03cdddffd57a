use vstd::prelude::*;
use vstd::utf8::{
    char_u32_cast, encode_scalar, encode_utf8, is_ascii_chars, is_ascii_chars_encode_utf8,
};

use crate::text::{chars_of, push_char};

verus! {

/// A card rank: 2..=14, where 11..=14 are jack, queen, king and ace.
#[derive(Copy, Clone, PartialEq, Eq, Structural, Hash, Debug, Default)]
pub struct Rank(pub u8);

/// A card suit: 0 = hearts, 1 = diamonds, 2 = clubs, 3 = spades.
#[derive(Copy, Clone, PartialEq, Eq, Structural, Hash, Debug, Default)]
pub struct Suit(pub u8);

#[derive(Copy, Clone, PartialEq, Eq, Structural, Hash, Debug, Default)]
pub struct Card {
    pub rank: Rank,
    pub suit: Suit,
}

// ---------------------------------------------------------------------------
// The text model
// ---------------------------------------------------------------------------

/// A card with a rank in 2..=14 and a suit in 0..=3.
pub open spec fn valid_card(c: Card) -> bool {
    2 <= c.rank.0 <= 14 && c.suit.0 <= 3
}

pub open spec fn make_card(r: int, s: int) -> Card {
    Card { rank: Rank(r as u8), suit: Suit(s as u8) }
}

/// ASCII upper-casing of one byte.
pub open spec fn upper(b: u8) -> u8 {
    if 97 <= b <= 122 {
        (b - 32) as u8
    } else {
        b
    }
}

/// ASCII lower-casing of one byte.
pub open spec fn lower(b: u8) -> u8 {
    if 65 <= b <= 90 {
        (b + 32) as u8
    } else {
        b
    }
}

/// The rank that a (case-insensitive) rank character stands for.
pub open spec fn rank_of_byte(b: u8) -> Option<u8> {
    let u = upper(b);
    if 50 <= u <= 57 {
        Some((u - 48) as u8)
    } else if u == 84 {
        Some(10)
    } else if u == 74 {
        Some(11)
    } else if u == 81 {
        Some(12)
    } else if u == 75 {
        Some(13)
    } else if u == 65 {
        Some(14)
    } else {
        None
    }
}

/// The suit that a (case-insensitive) suit character h, d, c or s stands for.
pub open spec fn suit_of_byte(b: u8) -> Option<u8> {
    let l = lower(b);
    if l == 104 {
        Some(0)
    } else if l == 100 {
        Some(1)
    } else if l == 99 {
        Some(2)
    } else if l == 115 {
        Some(3)
    } else {
        None
    }
}

/// The character that names a rank, or '?'.
pub open spec fn rank_char(r: u8) -> char {
    if 2 <= r <= 9 {
        ((48 + r) as u8) as char
    } else if r == 10 {
        'T'
    } else if r == 11 {
        'J'
    } else if r == 12 {
        'Q'
    } else if r == 13 {
        'K'
    } else if r == 14 {
        'A'
    } else {
        '?'
    }
}

/// The character that names a suit, or '?'.
pub open spec fn suit_char(s: u8) -> char {
    if s == 0 {
        'h'
    } else if s == 1 {
        'd'
    } else if s == 2 {
        'c'
    } else if s == 3 {
        's'
    } else {
        '?'
    }
}

/// The two-character name of a card, such as "Ah".
pub open spec fn card_text(c: Card) -> Seq<char> {
    seq![rank_char(c.rank.0), suit_char(c.suit.0)]
}

pub open spec fn unknown_rank_msg(b: u8) -> Seq<char> {
    "unknown rank '"@ + seq![upper(b) as char] + "'"@
}

pub open spec fn unknown_suit_msg(b: u8) -> Seq<char> {
    "unknown suit '"@ + seq![lower(b) as char] + "'"@
}

/// The rank of a rank character, or the error message for it.
pub open spec fn rank_result(b: u8) -> Result<u8, Seq<char>> {
    match rank_of_byte(b) {
        Some(r) => Ok(r),
        None => Err(unknown_rank_msg(b)),
    }
}

/// The card named by a rank byte and a suit byte.
pub open spec fn card_of_bytes(b0: u8, b1: u8) -> Result<Card, Seq<char>> {
    match rank_of_byte(b0) {
        None => Err(unknown_rank_msg(b0)),
        Some(r) => match suit_of_byte(b1) {
            None => Err(unknown_suit_msg(b1)),
            Some(s) => Ok(Card { rank: Rank(r), suit: Suit(s) }),
        },
    }
}

/// The card that a two-byte text names.
pub open spec fn card_of_text(s: Seq<char>) -> Result<Card, Seq<char>> {
    let b = encode_utf8(s);
    if b.len() != 2 {
        Err("card must be 2 characters, got: "@ + s)
    } else {
        card_of_bytes(b[0], b[1])
    }
}

/// A `Result` with its error text taken as a sequence of characters.
pub open spec fn as_text<T>(r: Result<T, String>) -> Result<T, Seq<char>> {
    match r {
        Ok(v) => Ok(v),
        Err(e) => Err(e@),
    }
}

/// A two-card hand result with its cards as a pair.
pub open spec fn hand_text(r: Result<[Card; 2], String>) -> Result<(Card, Card), Seq<char>> {
    match r {
        Ok(h) => Ok((h[0], h[1])),
        Err(e) => Err(e@),
    }
}

/// Whether a character has the Unicode White_Space property (what
/// `char::is_whitespace` tests).
pub open spec fn is_white_space(c: char) -> bool {
    let v = c as u32;
    (9 <= v <= 13) || v == 32 || v == 0x85 || v == 0xA0 || v == 0x1680 || (0x2000 <= v <= 0x200A)
        || v == 0x2028 || v == 0x2029 || v == 0x202F || v == 0x205F || v == 0x3000
}

/// The maximal runs of non-whitespace characters of `s`, in order: what
/// `str::split_whitespace` yields.
pub open spec fn ws_tokens(s: Seq<char>) -> Seq<Seq<char>>
    decreases s.len(),
{
    if s.len() == 0 {
        seq![]
    } else {
        let prev = ws_tokens(s.drop_last());
        let c = s.last();
        if is_white_space(c) {
            prev
        } else if s.len() >= 2 && !is_white_space(s[s.len() - 2]) {
            prev.update(prev.len() - 1, prev.last().push(c))
        } else {
            prev.push(seq![c])
        }
    }
}

/// A UTF-8 continuation byte: one that falls inside a character.
pub open spec fn inside_char(b: u8) -> bool {
    0x80 <= b < 0xC0
}

/// The hand that a concrete text names: two space-separated cards ("Ah Kh")
/// or four bytes ("AhKh") that split into two halves of two bytes each.
pub open spec fn hand_of_text(s: Seq<char>) -> Result<(Card, Card), Seq<char>> {
    let b = encode_utf8(s);
    if s.contains(' ') {
        let toks = ws_tokens(s);
        if toks.len() != 2 {
            Err("hand must have exactly 2 cards, got: "@ + s)
        } else {
            match card_of_text(toks[0]) {
                Err(e) => Err(e),
                Ok(c1) => match card_of_text(toks[1]) {
                    Err(e) => Err(e),
                    Ok(c2) => Ok((c1, c2)),
                },
            }
        }
    } else if b.len() == 4 && !inside_char(b[2]) {
        match card_of_bytes(b[0], b[1]) {
            Err(e) => Err(e),
            Ok(c1) => match card_of_bytes(b[2], b[3]) {
                Err(e) => Err(e),
                Ok(c2) => Ok((c1, c2)),
            },
        }
    } else {
        Err("cannot parse hand: "@ + s)
    }
}

/// The card of rank `r` and suit `s` is not in `used`.
pub open spec fn is_free(used: Seq<Card>, r: int, s: int) -> bool {
    !used.contains(make_card(r, s))
}

/// The lowest suit in `from..4` in which rank `r` is free.
pub open spec fn first_free(used: Seq<Card>, r: int, from: int) -> Option<int>
    decreases 4 - from,
{
    if from >= 4 || from < 0 {
        None
    } else if is_free(used, r, from) {
        Some(from)
    } else {
        first_free(used, r, from + 1)
    }
}

/// The lowest suit in `from..4` in which both ranks are free.
pub open spec fn first_free_both(used: Seq<Card>, r1: int, r2: int, from: int) -> Option<int>
    decreases 4 - from,
{
    if from >= 4 || from < 0 {
        None
    } else if is_free(used, r1, from) && is_free(used, r2, from) {
        Some(from)
    } else {
        first_free_both(used, r1, r2, from + 1)
    }
}

/// The lowest suit in `from..4` other than `other` in which rank `r` is free.
pub open spec fn first_free_except(used: Seq<Card>, r: int, other: int, from: int) -> Option<int>
    decreases 4 - from,
{
    if from >= 4 || from < 0 {
        None
    } else if from != other && is_free(used, r, from) {
        Some(from)
    } else {
        first_free_except(used, r, other, from + 1)
    }
}

/// A pocket pair of rank `r` in the two lowest free suits.
pub open spec fn pair_choice(r: u8, used: Seq<Card>) -> Result<(Card, Card), Seq<char>> {
    match first_free(used, r as int, 0) {
        None => Err(pair_msg(r)),
        Some(a) => match first_free(used, r as int, a + 1) {
            None => Err(pair_msg(r)),
            Some(b) => Ok((make_card(r as int, a), make_card(r as int, b))),
        },
    }
}

pub open spec fn pair_msg(r: u8) -> Seq<char> {
    "cannot assign two suits for "@ + seq![rank_char(r), rank_char(r)]
        + "; too many cards already in use"@
}

/// Two different ranks in the lowest suit in which both are free.
pub open spec fn suited_choice(r1: u8, r2: u8, used: Seq<Card>) -> Result<(Card, Card), Seq<char>> {
    if r1 == r2 {
        Err(
            "cannot assign a suit for "@ + seq![rank_char(r1), rank_char(r2)]
                + "s; a suited hand needs two different ranks"@,
        )
    } else {
    match first_free_both(used, r1 as int, r2 as int, 0) {
        None => Err(
            "cannot assign a suit for "@ + seq![rank_char(r1), rank_char(r2)]
                + "s; all suited combinations already in use"@,
        ),
        Some(s) => Ok((make_card(r1 as int, s), make_card(r2 as int, s))),
    }
    }
}

/// The least pair of different suits `(s1, s2)`, `s1` from `from` on, in
/// which rank `r1` is free in `s1` and rank `r2` in `s2`, in the order of
/// `s1` first, then `s2`.
pub open spec fn offsuit_from(used: Seq<Card>, r1: int, r2: int, from: int) -> Option<(int, int)>
    decreases 4 - from,
{
    if from >= 4 || from < 0 {
        None
    } else if is_free(used, r1, from) {
        match first_free_except(used, r2, from, 0) {
            Some(s2) => Some((from, s2)),
            None => offsuit_from(used, r1, r2, from + 1),
        }
    } else {
        offsuit_from(used, r1, r2, from + 1)
    }
}

/// The two ranks in the least pair of different suits in which both are
/// free.
pub open spec fn offsuit_choice(r1: u8, r2: u8, used: Seq<Card>) -> Result<(Card, Card), Seq<char>> {
    match first_free(used, r1 as int, 0) {
        None => Err(
            "no available suit for "@ + seq![rank_char(r1)] + " in "@ + seq![
                rank_char(r1),
                rank_char(r2),
            ] + "o"@,
        ),
        Some(_) => match offsuit_from(used, r1 as int, r2 as int, 0) {
            None => Err(
                "no available offsuit assignment for "@ + seq![rank_char(r1), rank_char(r2)]
                    + "o"@,
            ),
            Some((s1, s2)) => Ok((make_card(r1 as int, s1), make_card(r2 as int, s2))),
        },
    }
}

pub open spec fn cannot_parse(s: Seq<char>) -> Seq<char> {
    "cannot parse '"@ + s + "': "@
}

/// The hand that `s` names, in any supported format, avoiding `used`.
pub open spec fn hand_of_any(s: Seq<char>, used: Seq<Card>) -> Result<(Card, Card), Seq<char>> {
    let b = encode_utf8(s);
    if s.contains(' ') || b.len() == 4 {
        match hand_of_text(s) {
            Err(e) => Err(e),
            Ok((c1, c2)) => if used.contains(c1) {
                Err("card "@ + card_text(c1) + " conflicts with the other hand"@)
            } else if used.contains(c2) {
                Err("card "@ + card_text(c2) + " conflicts with the other hand"@)
            } else if c1 == c2 {
                Err("hand contains duplicate cards"@)
            } else {
                Ok((c1, c2))
            },
        }
    } else if b.len() == 2 || b.len() == 3 {
        match rank_result(b[0]) {
            Err(e) => Err(cannot_parse(s) + e),
            Ok(r1) => match rank_result(b[1]) {
                Err(e) => Err(cannot_parse(s) + e),
                Ok(r2) => if b.len() == 2 {
                    if r1 != r2 {
                        Err(
                            cannot_parse(s)
                                + "2-character hands must be a pair (same rank, e.g. AA)"@,
                        )
                    } else {
                        pair_choice(r1, used)
                    }
                } else if lower(b[2]) == 115 {
                    suited_choice(r1, r2, used)
                } else if lower(b[2]) == 111 {
                    offsuit_choice(r1, r2, used)
                } else {
                    Err(
                        cannot_parse(s) + "suffix '"@ + seq![lower(b[2]) as char]
                            + "' not recognized (use 's' for suited or 'o' for offsuit)"@,
                    )
                },
            },
        }
    } else {
        Err(cannot_parse(s) + "expected e.g. AhKh, AKs, KQo, or AA"@)
    }
}

/// The `k`-th card of the full deck: suits in order, ranks 2..=14 within each.
pub open spec fn deck_card(k: int) -> Card {
    make_card(k % 13 + 2, k / 13)
}

// ---------------------------------------------------------------------------
// Small helpers
// ---------------------------------------------------------------------------

fn ascii_upper(b: u8) -> (r: u8)
    ensures
        r == upper(b),
{
    if b >= 97 && b <= 122 {
        b - 32
    } else {
        b
    }
}

fn ascii_lower(b: u8) -> (r: u8)
    ensures
        r == lower(b),
{
    if b >= 65 && b <= 90 {
        b + 32
    } else {
        b
    }
}

/// The text `prefix`, the character `c`, then `suffix`.
fn quoted(prefix: &str, c: char, suffix: &str) -> (s: String)
    ensures
        s@ == prefix@ + seq![c] + suffix@,
{
    let mut s = String::from_str(prefix);
    push_char(&mut s, c);
    s.append(suffix);
    s
}

fn parse_rank_byte(b: u8) -> (r: Result<u8, String>)
    ensures
        as_text(r) == rank_result(b),
{
    let u = ascii_upper(b);
    if u >= 50 && u <= 57 {
        Ok(u - 48)
    } else if u == 84 {
        Ok(10)
    } else if u == 74 {
        Ok(11)
    } else if u == 81 {
        Ok(12)
    } else if u == 75 {
        Ok(13)
    } else if u == 65 {
        Ok(14)
    } else {
        Err(quoted("unknown rank '", u as char, "'"))
    }
}

fn rank_to_char(r: u8) -> (c: char)
    ensures
        c == rank_char(r),
{
    if r >= 2 && r <= 9 {
        (48 + r) as char
    } else if r == 10 {
        'T'
    } else if r == 11 {
        'J'
    } else if r == 12 {
        'Q'
    } else if r == 13 {
        'K'
    } else if r == 14 {
        'A'
    } else {
        '?'
    }
}

fn suit_to_char(s: u8) -> (c: char)
    ensures
        c == suit_char(s),
{
    if s == 0 {
        'h'
    } else if s == 1 {
        'd'
    } else if s == 2 {
        'c'
    } else if s == 3 {
        's'
    } else {
        '?'
    }
}

/// The card named by a rank byte and a suit byte.
fn card_from_bytes(b0: u8, b1: u8) -> (r: Result<Card, String>)
    ensures
        as_text(r) == card_of_bytes(b0, b1),
{
    let rank_val = match parse_rank_byte(b0) {
        Ok(v) => v,
        Err(e) => return Err(e),
    };
    let l = ascii_lower(b1);
    let suit_val = if l == 104 {
        0
    } else if l == 100 {
        1
    } else if l == 99 {
        2
    } else if l == 115 {
        3
    } else {
        return Err(quoted("unknown suit '", l as char, "'"));
    };
    Ok(Card { rank: Rank(rank_val), suit: Suit(suit_val) })
}

fn has_space(v: &Vec<char>) -> (b: bool)
    ensures
        b == v@.contains(' '),
{
    let mut i: usize = 0;
    while i < v.len()
        invariant
            0 <= i <= v.len(),
            forall|k: int| 0 <= k < i ==> v@[k] != ' ',
        decreases v.len() - i,
    {
        if v[i] == ' ' {
            assert(v@[i as int] == ' ');
            return true;
        }
        i = i + 1;
    }
    false
}

fn is_whitespace_char(c: char) -> (b: bool)
    ensures
        b == is_white_space(c),
{
    let v = c as u32;
    (v >= 9 && v <= 13) || v == 32 || v == 0x85 || v == 0xA0 || v == 0x1680 || (v >= 0x2000 && v
        <= 0x200A) || v == 0x2028 || v == 0x2029 || v == 0x202F || v == 0x205F || v == 0x3000
}

/// Splits characters into their maximal runs of non-whitespace.
fn whitespace_tokens(chars: &Vec<char>) -> (toks: Vec<Vec<char>>)
    ensures
        toks.deep_view() == ws_tokens(chars@),
{
    let mut done: Vec<Vec<char>> = Vec::new();
    let mut cur: Vec<char> = Vec::new();
    let mut i: usize = 0;
    while i < chars.len()
        invariant
            0 <= i <= chars.len(),
            ws_tokens(chars@.take(i as int)) == done.deep_view() + if cur.len() > 0 {
                seq![cur@]
            } else {
                Seq::<Seq<char>>::empty()
            },
            cur.len() > 0 <==> (i > 0 && !is_white_space(chars@[i - 1])),
        decreases chars.len() - i,
    {
        let c = chars[i];
        let ghost pre = chars@.take(i as int);
        let ghost post = chars@.take(i + 1);
        assert(post.drop_last() =~= pre);
        assert(post.last() == c);
        if is_whitespace_char(c) {
            if cur.len() > 0 {
                let ghost old_done = done.deep_view();
                let ghost cv = cur@;
                assert(cur.deep_view() =~= cv);
                done.push(cur);
                assert(done.deep_view() =~= old_done.push(cv));
                cur = Vec::new();
            }
            assert(ws_tokens(post) == ws_tokens(pre));
            assert(ws_tokens(post) =~= done.deep_view() + Seq::<Seq<char>>::empty());
        } else {
            let ghost old_cur = cur@;
            if cur.len() > 0 {
                assert(post[post.len() - 2] == chars@[i - 1]);
                assert(ws_tokens(post) =~= done.deep_view() + seq![old_cur.push(c)]);
            } else {
                assert(ws_tokens(post) =~= done.deep_view() + seq![seq![c]]);
                assert(old_cur.push(c) =~= seq![c]);
            }
            cur.push(c);
            assert(cur@ =~= old_cur.push(c));
            assert(ws_tokens(post) =~= done.deep_view() + seq![cur@]);
        }
        assert(post == chars@.take(i + 1));
        i = i + 1;
    }
    assert(chars@.take(chars.len() as int) =~= chars@);
    if cur.len() > 0 {
        let ghost old_done = done.deep_view();
        let ghost cv = cur@;
        assert(cur.deep_view() =~= cv);
        done.push(cur);
        assert(done.deep_view() =~= old_done.push(cv));
    } else {
        assert(done.deep_view() + Seq::<Seq<char>>::empty() =~= done.deep_view());
    }
    done
}

fn string_of(v: &Vec<char>) -> (s: String)
    ensures
        s@ == v@,
{
    let mut s = String::new();
    let mut i: usize = 0;
    while i < v.len()
        invariant
            0 <= i <= v.len(),
            s@ == v@.take(i as int),
        decreases v.len() - i,
    {
        push_char(&mut s, v[i]);
        assert(v@.take(i + 1) =~= v@.take(i as int).push(v@[i as int]));
        i = i + 1;
    }
    assert(v@.take(v.len() as int) =~= v@);
    s
}

/// Parse a concrete hand: "AhKh" (4-char) or "Ah Kh" (space-separated). A
/// four-byte text whose halves would split a character is refused.
pub fn parse_hand(s: &str) -> (r: Result<[Card; 2], String>)
    ensures
        hand_text(r) == hand_of_text(s@),
{
    let chars = chars_of(s);
    if has_space(&chars) {
        let parts = whitespace_tokens(&chars);
        if parts.len() != 2 {
            let mut m = String::from_str("hand must have exactly 2 cards, got: ");
            m.append(s);
            return Err(m);
        }
        assert(parts.deep_view()[0] == parts[0]@);
        assert(parts.deep_view()[1] == parts[1]@);
        let t1 = string_of(&parts[0]);
        let c1 = match Card::parse(t1.as_str()) {
            Ok(c) => c,
            Err(e) => return Err(e),
        };
        let t2 = string_of(&parts[1]);
        let c2 = match Card::parse(t2.as_str()) {
            Ok(c) => c,
            Err(e) => return Err(e),
        };
        Ok([c1, c2])
    } else if s.as_bytes().len() == 4 && !(s.as_bytes()[2] >= 0x80 && s.as_bytes()[2] < 0xC0) {
        let bytes = s.as_bytes();
        let c1 = match card_from_bytes(bytes[0], bytes[1]) {
            Ok(c) => c,
            Err(e) => return Err(e),
        };
        let c2 = match card_from_bytes(bytes[2], bytes[3]) {
            Ok(c) => c,
            Err(e) => return Err(e),
        };
        Ok([c1, c2])
    } else {
        let mut m = String::from_str("cannot parse hand: ");
        m.append(s);
        Err(m)
    }
}

/// Whether `c` is among `used`.
pub(crate) fn holds(used: &[Card], c: Card) -> (b: bool)
    ensures
        b == used@.contains(c),
{
    let mut i: usize = 0;
    while i < used.len()
        invariant
            0 <= i <= used.len(),
            forall|k: int| 0 <= k < i ==> used@[k] != c,
        decreases used.len() - i,
    {
        if used[i] == c {
            assert(used@[i as int] == c);
            return true;
        }
        i = i + 1;
    }
    false
}

// --- Shorthand suit assignment helpers ---

/// Whether the card of rank `r` and suit `s` is among `used`.
fn in_use(used: &[Card], r: u8, s: u8) -> (b: bool)
    ensures
        b == !is_free(used@, r as int, s as int),
{
    let c = Card { rank: Rank(r), suit: Suit(s) };
    assert(c == make_card(r as int, s as int));
    holds(used, c)
}

fn two_rank_text(r1: u8, r2: u8) -> (s: String)
    ensures
        s@ == seq![rank_char(r1), rank_char(r2)],
{
    let mut s = String::new();
    push_char(&mut s, rank_to_char(r1));
    push_char(&mut s, rank_to_char(r2));
    s
}

/// Pick two different suits for a paired rank (e.g. AA -> AhAd).
fn assign_pair(rank: u8, used: &[Card]) -> (res: Result<[Card; 2], String>)
    ensures
        hand_text(res) == pair_choice(rank, used@),
{
    let mut found = [Card { rank: Rank(rank), suit: Suit(0) }; 2];
    let mut count: usize = 0;
    let mut suit: u8 = 0;
    while suit < 4
        invariant
            0 <= suit <= 4,
            count < 2,
            count == 0 ==> first_free(used@, rank as int, 0) == first_free(used@, rank as int, suit as int),
            count == 1 ==> ({
                &&& first_free(used@, rank as int, 0) == Some(found[0].suit.0 as int)
                &&& found[0] == make_card(rank as int, found[0].suit.0 as int)
                &&& first_free(used@, rank as int, found[0].suit.0 + 1) == first_free(
                    used@,
                    rank as int,
                    suit as int,
                )
            }),
        decreases 4 - suit,
    {
        let c = Card { rank: Rank(rank), suit: Suit(suit) };
        assert(c == make_card(rank as int, suit as int));
        if !holds(used, c) {
            found[count] = c;
            count = count + 1;
            if count == 2 {
                return Ok(found);
            }
        }
        suit = suit + 1;
    }
    let mut m = String::from_str("cannot assign two suits for ");
    m.append(two_rank_text(rank, rank).as_str());
    m.append("; too many cards already in use");
    Err(m)
}

/// Pick a suit where both ranks are available (e.g. AKs -> AhKh).
fn assign_suited(r1: u8, r2: u8, used: &[Card]) -> (res: Result<[Card; 2], String>)
    ensures
        hand_text(res) == suited_choice(r1, r2, used@),
{
    if r1 == r2 {
        let mut m = String::from_str("cannot assign a suit for ");
        m.append(two_rank_text(r1, r2).as_str());
        m.append("s; a suited hand needs two different ranks");
        return Err(m);
    }
    let mut suit: u8 = 0;
    while suit < 4
        invariant
            0 <= suit <= 4,
            r1 != r2,
            first_free_both(used@, r1 as int, r2 as int, 0) == first_free_both(
                used@,
                r1 as int,
                r2 as int,
                suit as int,
            ),
        decreases 4 - suit,
    {
        let c1 = Card { rank: Rank(r1), suit: Suit(suit) };
        let c2 = Card { rank: Rank(r2), suit: Suit(suit) };
        assert(c1 == make_card(r1 as int, suit as int));
        assert(c2 == make_card(r2 as int, suit as int));
        if !holds(used, c1) && !holds(used, c2) {
            return Ok([c1, c2]);
        }
        suit = suit + 1;
    }
    let mut m = String::from_str("cannot assign a suit for ");
    m.append(two_rank_text(r1, r2).as_str());
    m.append("s; all suited combinations already in use");
    Err(m)
}

/// Pick different suits for two ranks (e.g. AKo -> AhKd): the least pair
/// of suits, first suit first, in which both are free.
fn assign_offsuit(r1: u8, r2: u8, used: &[Card]) -> (res: Result<[Card; 2], String>)
    ensures
        hand_text(res) == offsuit_choice(r1, r2, used@),
{
    let mut s1: u8 = 0;
    while s1 < 4 && in_use(used, r1, s1)
        invariant
            0 <= s1 <= 4,
            first_free(used@, r1 as int, 0) == first_free(used@, r1 as int, s1 as int),
        decreases 4 - s1,
    {
        s1 = s1 + 1;
    }
    if s1 == 4 {
        let mut m = String::from_str("no available suit for ");
        push_char(&mut m, rank_to_char(r1));
        m.append(" in ");
        m.append(two_rank_text(r1, r2).as_str());
        m.append("o");
        assert(first_free(used@, r1 as int, 0) is None);
        assert(m@ =~= "no available suit for "@ + seq![rank_char(r1)] + " in "@ + seq![
                rank_char(r1),
                rank_char(r2),
            ] + "o"@);
        return Err(m);
    }
    // r2 must get a suit different from r1's (to be genuinely offsuit)
    let mut a: u8 = 0;
    while a < 4
        invariant
            0 <= a <= 4,
            first_free(used@, r1 as int, 0) is Some,
            offsuit_from(used@, r1 as int, r2 as int, 0) == offsuit_from(
                used@,
                r1 as int,
                r2 as int,
                a as int,
            ),
        decreases 4 - a,
    {
        if !in_use(used, r1, a) {
            let mut b: u8 = 0;
            while b < 4 && (b == a || in_use(used, r2, b))
                invariant
                    0 <= b <= 4,
                    a < 4,
                    first_free(used@, r1 as int, 0) is Some,
                    is_free(used@, r1 as int, a as int),
                    offsuit_from(used@, r1 as int, r2 as int, 0) == offsuit_from(
                        used@,
                        r1 as int,
                        r2 as int,
                        a as int,
                    ),
                    first_free_except(used@, r2 as int, a as int, 0) == first_free_except(
                        used@,
                        r2 as int,
                        a as int,
                        b as int,
                    ),
                decreases 4 - b,
            {
                b = b + 1;
            }
            if b < 4 {
                assert(Card { rank: Rank(r1), suit: Suit(a) } == make_card(r1 as int, a as int));
                assert(Card { rank: Rank(r2), suit: Suit(b) } == make_card(r2 as int, b as int));
                return Ok([Card { rank: Rank(r1), suit: Suit(a) }, Card { rank: Rank(r2), suit: Suit(b) }]);
            }
        }
        a = a + 1;
    }
    let mut m = String::from_str("no available offsuit assignment for ");
    m.append(two_rank_text(r1, r2).as_str());
    m.append("o");
    Err(m)
}

/// "cannot parse '<s>': <e>"
fn cannot_parse_msg(s: &str, e: &str) -> (m: String)
    ensures
        m@ == cannot_parse(s@) + e@,
{
    let mut m = String::from_str("cannot parse '");
    m.append(s);
    m.append("': ");
    m.append(e);
    m
}

/// Parse a hand in any supported format, avoiding cards already in `used`.
///
/// Supported formats:
/// - Concrete: `"AhKh"` or `"Ah Kh"`
/// - Paired shorthand: `"AA"`, `"KK"`, `"22"`, etc.
/// - Suited shorthand: `"AKs"`, `"T9s"`, etc.
/// - Offsuit shorthand: `"AKo"`, `"KQo"`, etc.
///
/// For shorthand, suits are chosen automatically using the lowest available
/// suits that don't conflict with `used`.
pub fn parse_hand_any(s: &str, used: &[Card]) -> (r: Result<[Card; 2], String>)
    ensures
        hand_text(r) == hand_of_any(s@, used@),
        r is Ok ==> r->Ok_0[0] != r->Ok_0[1] && valid_card(r->Ok_0[0]) && valid_card(r->Ok_0[1]),
{
    proof {
        lemma_resolved_hand_avoids_used(s@, used@);
    }
    // Try concrete format first
    let chars = chars_of(s);
    if has_space(&chars) || s.as_bytes().len() == 4 {
        let hand = match parse_hand(s) {
            Ok(h) => h,
            Err(e) => {
                assert(hand_of_text(s@) == Err::<(Card, Card), Seq<char>>(e@));
                assert(hand_of_any(s@, used@) == Err::<(Card, Card), Seq<char>>(e@));
                return Err(e);
            },
        };
        if holds(used, hand[0]) {
            let mut m = String::from_str("card ");
            m.append(hand[0].to_string().as_str());
            m.append(" conflicts with the other hand");
            return Err(m);
        }
        if holds(used, hand[1]) {
            let mut m = String::from_str("card ");
            m.append(hand[1].to_string().as_str());
            m.append(" conflicts with the other hand");
            return Err(m);
        }
        if hand[0] == hand[1] {
            return Err(String::from_str("hand contains duplicate cards"));
        }
        return Ok(hand);
    }
    let b = s.as_bytes();
    if b.len() == 2 || b.len() == 3 {
        let r1 = match parse_rank_byte(b[0]) {
            Ok(r) => r,
            Err(e) => return Err(cannot_parse_msg(s, e.as_str())),
        };
        let r2 = match parse_rank_byte(b[1]) {
            Ok(r) => r,
            Err(e) => return Err(cannot_parse_msg(s, e.as_str())),
        };
        if b.len() == 2 {
            if r1 != r2 {
                return Err(
                    cannot_parse_msg(s, "2-character hands must be a pair (same rank, e.g. AA)"),
                );
            }
            assign_pair(r1, used)
        } else {
            let c = ascii_lower(b[2]);
            if c == 115 {
                assign_suited(r1, r2, used)
            } else if c == 111 {
                assign_offsuit(r1, r2, used)
            } else {
                let e = quoted(
                    "suffix '",
                    c as char,
                    "' not recognized (use 's' for suited or 'o' for offsuit)",
                );
                let m = cannot_parse_msg(s, e.as_str());
                assert(m@ =~= cannot_parse(s@) + "suffix '"@ + seq![lower(b@[2]) as char]
                    + "' not recognized (use 's' for suited or 'o' for offsuit)"@);
                Err(m)
            }
        }
    } else {
        Err(cannot_parse_msg(s, "expected e.g. AhKh, AKs, KQo, or AA"))
    }
}

/// The 52 cards, suit by suit, ranks ascending within each suit.
pub fn full_deck() -> (deck: Vec<Card>)
    ensures
        deck@.len() == 52,
        forall|k: int| 0 <= k < 52 ==> #[trigger] deck@[k] == deck_card(k),
{
    let mut deck: Vec<Card> = Vec::with_capacity(52);
    let mut suit: u8 = 0;
    while suit < 4
        invariant
            0 <= suit <= 4,
            deck@.len() == 13 * suit,
            forall|k: int| 0 <= k < deck@.len() ==> #[trigger] deck@[k] == deck_card(k),
        decreases 4 - suit,
    {
        let mut rank: u8 = 2;
        while rank <= 14
            invariant
                0 <= suit < 4,
                2 <= rank <= 15,
                deck@.len() == 13 * suit + rank - 2,
                forall|k: int| 0 <= k < deck@.len() ==> #[trigger] deck@[k] == deck_card(k),
            decreases 15 - rank,
        {
            proof {
                let k = 13 * suit + rank - 2;
                assert(k % 13 == rank - 2 && k / 13 == suit) by (nonlinear_arith)
                    requires
                        k == 13 * suit + rank - 2,
                        2 <= rank <= 14,
                        0 <= suit,
                ;
            }
            deck.push(Card { rank: Rank(rank), suit: Suit(suit) });
            rank = rank + 1;
        }
        suit = suit + 1;
    }
    deck
}

impl Card {
    /// Parses a two-character card such as "Ah" or "tS" (case-insensitive).
    pub fn parse(s: &str) -> (r: Result<Card, String>)
        ensures
            as_text(r) == card_of_text(s@),
    {
        let bytes = s.as_bytes();
        if bytes.len() != 2 {
            let mut m = String::from_str("card must be 2 characters, got: ");
            m.append(s);
            return Err(m);
        }
        card_from_bytes(bytes[0], bytes[1])
    }

    /// The two-character name of the card, such as "Ah"; '?' stands for a
    /// rank or suit out of range.
    pub fn to_string(&self) -> (s: String)
        ensures
            s@ == card_text(*self),
    {
        let mut s = String::new();
        push_char(&mut s, rank_to_char(self.rank.0));
        push_char(&mut s, suit_to_char(self.suit.0));
        s
    }
}

} // verus!

verus! {

// ---------------------------------------------------------------------------
// Laws
// ---------------------------------------------------------------------------

/// A card read from a text is valid, and its name is the two bytes of that
/// text with the rank upper-cased and the suit lower-cased.
pub proof fn lemma_parsed_card_name(s: Seq<char>)
    ensures
        card_of_text(s) matches Ok(c) ==> valid_card(c) && card_text(c) == seq![
            upper(encode_utf8(s)[0]) as char,
            lower(encode_utf8(s)[1]) as char,
        ],
{
}

/// The name of a valid card parses back to the card.
pub proof fn lemma_card_text_round_trip(c: Card)
    requires
        valid_card(c),
    ensures
        card_of_text(card_text(c)) == Ok::<Card, Seq<char>>(c),
{
    let t = card_text(c);
    assert(is_ascii_chars(t));
    is_ascii_chars_encode_utf8(t);
    let b = encode_utf8(t);
    assert(b[0] == rank_char(c.rank.0) as u8);
    assert(b[1] == suit_char(c.suit.0) as u8);
}


/// The `k`-th card of the full deck is valid.
pub proof fn lemma_deck_card_valid(k: int)
    requires
        0 <= k < 52,
    ensures
        valid_card(deck_card(k)),
{
    assert(0 <= k % 13 < 13 && 0 <= k / 13 < 4) by (nonlinear_arith)
        requires
            0 <= k < 52,
    ;
}

/// No card occurs twice in the full deck.
pub proof fn lemma_deck_card_injective(j1: int, j2: int)
    requires
        0 <= j1 < 52,
        0 <= j2 < 52,
        deck_card(j1) == deck_card(j2),
    ensures
        j1 == j2,
{
    assert(0 <= j1 % 13 < 13 && 0 <= j1 / 13 < 4 && 0 <= j2 % 13 < 13 && 0 <= j2 / 13 < 4)
        by (nonlinear_arith)
        requires
            0 <= j1 < 52,
            0 <= j2 < 52,
    ;
    assert(j1 % 13 == j2 % 13 && j1 / 13 == j2 / 13);
    assert(j1 == j2) by (nonlinear_arith)
        requires
            j1 % 13 == j2 % 13,
            j1 / 13 == j2 / 13,
            0 <= j1,
            0 <= j2,
    ;
}

/// Every valid card is in the full deck, at position 13 * suit + rank - 2.
pub proof fn lemma_deck_card_complete(c: Card)
    requires
        valid_card(c),
    ensures
        0 <= 13 * c.suit.0 + c.rank.0 - 2 < 52,
        deck_card(13 * c.suit.0 + c.rank.0 - 2) == c,
{
    let k = 13 * c.suit.0 + c.rank.0 - 2;
    assert(k % 13 == c.rank.0 - 2 && k / 13 == c.suit.0) by (nonlinear_arith)
        requires
            k == 13 * c.suit.0 + c.rank.0 - 2,
            2 <= c.rank.0 <= 14,
            0 <= c.suit.0,
    ;
}

proof fn lemma_first_free(used: Seq<Card>, r: int, from: int)
    requires
        0 <= from <= 4,
    ensures
        first_free(used, r, from) matches Some(x) ==> from <= x < 4 && is_free(used, r, x) && forall|
            y: int,
        | from <= y < x ==> !is_free(used, r, y),
        first_free(used, r, from) is None ==> forall|y: int| from <= y < 4 ==> !is_free(used, r, y),
    decreases 4 - from,
{
    if from < 4 {
        lemma_first_free(used, r, from + 1);
    }
}

proof fn lemma_first_free_both(used: Seq<Card>, r1: int, r2: int, from: int)
    requires
        0 <= from <= 4,
    ensures
        first_free_both(used, r1, r2, from) matches Some(x) ==> from <= x < 4 && is_free(used, r1, x)
            && is_free(used, r2, x) && forall|z: int|
            from <= z < x ==> !(is_free(used, r1, z) && is_free(used, r2, z)),
        first_free_both(used, r1, r2, from) is None ==> forall|y: int|
            from <= y < 4 ==> !is_free(used, r1, y) || !is_free(used, r2, y),
    decreases 4 - from,
{
    if from < 4 {
        lemma_first_free_both(used, r1, r2, from + 1);
    }
}

proof fn lemma_first_free_except(used: Seq<Card>, r: int, other: int, from: int)
    requires
        0 <= from <= 4,
    ensures
        first_free_except(used, r, other, from) matches Some(x) ==> from <= x < 4 && x != other
            && is_free(used, r, x) && forall|z: int| from <= z < x && z != other ==> !is_free(used, r, z),
        first_free_except(used, r, other, from) is None ==> forall|y: int|
            from <= y < 4 && y != other ==> !is_free(used, r, y),
    decreases 4 - from,
{
    if from < 4 {
        lemma_first_free_except(used, r, other, from + 1);
    }
}

/// A resolved hand never holds a card of `used`; its suits are among the
/// four; the cards of a pair or an offsuit hand are in different suits,
/// those of a suited hand share a suit.
pub proof fn lemma_choices_avoid_used(r1: u8, r2: u8, used: Seq<Card>)
    ensures
        pair_choice(r1, used) matches Ok((c1, c2)) ==> !used.contains(c1) && !used.contains(c2)
            && c1.rank.0 == r1 && c2.rank.0 == r1 && c1.suit != c2.suit && c1.suit.0 <= 3
            && c2.suit.0 <= 3,
        suited_choice(r1, r2, used) matches Ok((c1, c2)) ==> !used.contains(c1) && !used.contains(
            c2,
        ) && c1.rank.0 == r1 && c2.rank.0 == r2 && c1.suit == c2.suit && c1.suit.0 <= 3
            && c2.suit.0 <= 3,
        offsuit_choice(r1, r2, used) matches Ok((c1, c2)) ==> !used.contains(c1) && !used.contains(
            c2,
        ) && c1.rank.0 == r1 && c2.rank.0 == r2 && c1.suit != c2.suit && c1.suit.0 <= 3
            && c2.suit.0 <= 3,
{
    lemma_first_free(used, r1 as int, 0);
    if let Some(a) = first_free(used, r1 as int, 0) {
        lemma_first_free(used, r1 as int, a + 1);
    }
    lemma_offsuit_from(used, r1 as int, r2 as int, 0);
    lemma_first_free_both(used, r1 as int, r2 as int, 0);
}

/// A pair takes the two lowest suits in which its rank is free, and fails
/// only when fewer than two are free; a suited hand of two different ranks
/// takes the lowest suit in which both are free, and fails only when there
/// is none.
pub proof fn lemma_pair_suited_least(r1: u8, r2: u8, used: Seq<Card>)
    ensures
        pair_choice(r1, used) matches Ok((c1, c2)) ==> {
            &&& c1.suit.0 < c2.suit.0
            &&& forall|y: int|
                0 <= y < c2.suit.0 && y != c1.suit.0 ==> !is_free(used, r1 as int, y)
        },
        pair_choice(r1, used) is Err ==> forall|a: int, b: int|
            0 <= a < b < 4 ==> !(is_free(used, r1 as int, a) && is_free(used, r1 as int, b)),
        suited_choice(r1, r2, used) matches Ok((c1, c2)) ==> forall|y: int|
            0 <= y < c1.suit.0 ==> !(is_free(used, r1 as int, y) && is_free(used, r2 as int, y)),
        r1 != r2 && suited_choice(r1, r2, used) is Err ==> forall|y: int|
            0 <= y < 4 ==> !(is_free(used, r1 as int, y) && is_free(used, r2 as int, y)),
{
    lemma_first_free(used, r1 as int, 0);
    if let Some(a) = first_free(used, r1 as int, 0) {
        lemma_first_free(used, r1 as int, a + 1);
    }
    lemma_first_free_both(used, r1 as int, r2 as int, 0);
}

/// The offsuit choice is the least pair of different suits `(s1, s2)`, by
/// `s1` first and then `s2`, with rank `r1` free in `s1` and rank `r2` free
/// in `s2`; there is none exactly when no such pair exists.
pub proof fn lemma_offsuit_from(used: Seq<Card>, r1: int, r2: int, from: int)
    requires
        0 <= from <= 4,
    ensures
        offsuit_from(used, r1, r2, from) matches Some((x, y)) ==> {
            &&& from <= x < 4
            &&& 0 <= y < 4
            &&& x != y
            &&& is_free(used, r1, x)
            &&& is_free(used, r2, y)
            &&& forall|a: int, b: int|
                from <= a < 4 && 0 <= b < 4 && a != b && is_free(used, r1, a) && is_free(used, r2, b)
                    ==> x < a || (x == a && y <= b)
        },
        offsuit_from(used, r1, r2, from) is None ==> forall|a: int, b: int|
            from <= a < 4 && 0 <= b < 4 && a != b ==> !(is_free(used, r1, a) && is_free(used, r2, b)),
    decreases 4 - from,
{
    if from < 4 {
        lemma_offsuit_from(used, r1, r2, from + 1);
        lemma_first_free_except(used, r2, from, 0);
        if let Some(y) = first_free_except(used, r2, from, 0) {
            if is_free(used, r1, from) {
                assert forall|a: int, b: int|
                    from <= a < 4 && 0 <= b < 4 && a != b && is_free(used, r1, a) && is_free(
                        used,
                        r2,
                        b,
                    ) implies from < a || (from == a && y <= b) by {
                    if a == from && b < y {
                        assert(!is_free(used, r2, b));
                    }
                }
            }
        }
    }
}

/// A hand that `parse_hand_any` accepts holds two different valid cards,
/// and none of `used`.
pub proof fn lemma_resolved_hand_avoids_used(s: Seq<char>, used: Seq<Card>)
    ensures
        hand_of_any(s, used) matches Ok((c1, c2)) ==> !used.contains(c1) && !used.contains(c2)
            && c1 != c2 && valid_card(c1) && valid_card(c2),
{
    let b = encode_utf8(s);
    if b.len() == 2 || b.len() == 3 {
        if let (Ok(r1), Ok(r2)) = (rank_result(b[0]), rank_result(b[1])) {
            lemma_choices_avoid_used(r1, r2, used);
        }
    }
}

/// With at most two cards in use, any three different cards include a free one.
proof fn lemma_three_not_all_used(used: Seq<Card>, x: Card, y: Card, z: Card)
    requires
        used.len() <= 2,
        x != y,
        y != z,
        x != z,
    ensures
        !used.contains(x) || !used.contains(y) || !used.contains(z),
{
    if used.contains(x) && used.contains(y) && used.contains(z) {
        let i = choose|i: int| 0 <= i < used.len() && used[i] == x;
        let j = choose|j: int| 0 <= j < used.len() && used[j] == y;
        let k = choose|k: int| 0 <= k < used.len() && used[k] == z;
    }
}

/// With at most two cards in use, every shorthand hand can be dealt: a pair,
/// two different ranks in one suit, or two ranks in different suits.
pub proof fn lemma_choices_succeed(r1: u8, r2: u8, used: Seq<Card>)
    requires
        used.len() <= 2,
    ensures
        pair_choice(r1, used) is Ok,
        r1 != r2 ==> suited_choice(r1, r2, used) is Ok,
        offsuit_choice(r1, r2, used) is Ok,
{
    let c = |s: int| make_card(r1 as int, s);
    let d = |s: int| make_card(r2 as int, s);
    assert(c(0) != c(1) && c(0) != c(2) && c(0) != c(3) && c(1) != c(2) && c(1) != c(3) && c(2)
        != c(3));
    lemma_first_free(used, r1 as int, 0);
    assert(is_free(used, r1 as int, 0) == !used.contains(c(0)));
    assert(is_free(used, r1 as int, 1) == !used.contains(c(1)));
    assert(is_free(used, r1 as int, 2) == !used.contains(c(2)));
    assert(is_free(used, r1 as int, 3) == !used.contains(c(3)));
    assert(is_free(used, r2 as int, 0) == !used.contains(d(0)));
    assert(is_free(used, r2 as int, 1) == !used.contains(d(1)));
    assert(is_free(used, r2 as int, 2) == !used.contains(d(2)));
    assert(is_free(used, r2 as int, 3) == !used.contains(d(3)));
    assert(d(0) != d(1) && d(0) != d(2) && d(0) != d(3) && d(1) != d(2) && d(1) != d(3) && d(2)
        != d(3));
    match first_free(used, r1 as int, 0) {
        None => {
            assert(!is_free(used, r1 as int, 0) && !is_free(used, r1 as int, 1) && !is_free(
                used,
                r1 as int,
                2,
            ));
            lemma_three_not_all_used(used, c(0), c(1), c(2));
        },
        Some(a) => {
            lemma_first_free(used, r1 as int, a + 1);
            if first_free(used, r1 as int, a + 1) is None {
                assert(forall|y: int| a + 1 <= y < 4 ==> !is_free(used, r1 as int, y));
                assert(forall|y: int| 0 <= y < a ==> !is_free(used, r1 as int, y));
                if a == 0 {
                    assert(!is_free(used, r1 as int, 1) && !is_free(used, r1 as int, 2) && !is_free(used, r1 as int, 3));
                    lemma_three_not_all_used(used, c(1), c(2), c(3));
                } else if a == 1 {
                    assert(!is_free(used, r1 as int, 0) && !is_free(used, r1 as int, 2) && !is_free(used, r1 as int, 3));
                    lemma_three_not_all_used(used, c(0), c(2), c(3));
                } else if a == 2 {
                    assert(!is_free(used, r1 as int, 0) && !is_free(used, r1 as int, 1) && !is_free(used, r1 as int, 3));
                    lemma_three_not_all_used(used, c(0), c(1), c(3));
                } else {
                    assert(!is_free(used, r1 as int, 0) && !is_free(used, r1 as int, 1) && !is_free(used, r1 as int, 2));
                    lemma_three_not_all_used(used, c(0), c(1), c(2));
                }
            }
            lemma_offsuit_from(used, r1 as int, r2 as int, 0);
            if offsuit_from(used, r1 as int, r2 as int, 0) is None {
                assert forall|y: int| 0 <= y < 4 && y != a implies !is_free(used, r2 as int, y) by {
                    assert(is_free(used, r1 as int, a));
                }
                if a == 0 {
                    assert(!is_free(used, r2 as int, 1) && !is_free(used, r2 as int, 2) && !is_free(used, r2 as int, 3));
                    lemma_three_not_all_used(used, d(1), d(2), d(3));
                } else if a == 1 {
                    assert(!is_free(used, r2 as int, 0) && !is_free(used, r2 as int, 2) && !is_free(used, r2 as int, 3));
                    lemma_three_not_all_used(used, d(0), d(2), d(3));
                } else if a == 2 {
                    assert(!is_free(used, r2 as int, 0) && !is_free(used, r2 as int, 1) && !is_free(used, r2 as int, 3));
                    lemma_three_not_all_used(used, d(0), d(1), d(3));
                } else {
                    assert(!is_free(used, r2 as int, 0) && !is_free(used, r2 as int, 1) && !is_free(used, r2 as int, 2));
                    lemma_three_not_all_used(used, d(0), d(1), d(2));
                }
            }
        },
    }
    if r1 != r2 {
        lemma_first_free_both(used, r1 as int, r2 as int, 0);
        if first_free_both(used, r1 as int, r2 as int, 0) is None {
            // every suit is blocked for one of the ranks: at least three of
            // the eight cards of the two ranks would be in use
            let x0 = if !is_free(used, r1 as int, 0) { c(0) } else { d(0) };
            let x1 = if !is_free(used, r1 as int, 1) { c(1) } else { d(1) };
            let x2 = if !is_free(used, r1 as int, 2) { c(2) } else { d(2) };
            lemma_three_not_all_used(used, x0, x1, x2);
        }
    }
}

// ---------------------------------------------------------------------------
// Letter case
// ---------------------------------------------------------------------------

/// A code point with the ASCII lower-case letters taken to upper case.
pub open spec fn fold_case(v: u32) -> u32 {
    if 97 <= v <= 122 {
        (v - 32) as u32
    } else {
        v
    }
}

/// Two texts that differ at most in the case of ASCII letters.
pub open spec fn same_ignoring_case(s: Seq<char>, t: Seq<char>) -> bool {
    &&& s.len() == t.len()
    &&& forall|i: int| 0 <= i < s.len() ==> fold_case(#[trigger] s[i] as u32) == fold_case(t[i] as u32)
}

/// An ASCII character is encoded as its own byte.
proof fn lemma_ascii_scalar(v: u32)
    requires
        v < 128,
    ensures
        encode_scalar(v) == seq![v as u8],
{
    assert((v & 0x7F) as u8 == v as u8) by (bit_vector)
        requires
            v < 128,
    ;
}

/// Bytes equal up to letter case read as the same rank and suit.
proof fn lemma_bytes_ignoring_case(x: u8, y: u8)
    requires
        upper(x) == upper(y),
    ensures
        lower(x) == lower(y),
        rank_of_byte(x) == rank_of_byte(y),
        suit_of_byte(x) == suit_of_byte(y),
        rank_result(x) == rank_result(y),
        forall|z: u8| #[trigger] card_of_bytes(x, z) == card_of_bytes(y, z),
        forall|z: u8| #[trigger] card_of_bytes(z, x) == card_of_bytes(z, y),
{
}

/// Texts equal up to letter case encode to bytes equal up to letter case.
proof fn lemma_encode_ignoring_case(s: Seq<char>, t: Seq<char>)
    requires
        same_ignoring_case(s, t),
    ensures
        encode_utf8(s).len() == encode_utf8(t).len(),
        forall|k: int|
            0 <= k < encode_utf8(s).len() ==> upper(#[trigger] encode_utf8(s)[k]) == upper(
                encode_utf8(t)[k],
            ),
    decreases s.len(),
{
    if s.len() > 0 {
        let s1 = s.drop_first();
        let t1 = t.drop_first();
        assert forall|i: int| 0 <= i < s1.len() implies fold_case(#[trigger] s1[i] as u32) == fold_case(
            t1[i] as u32,
        ) by {
            assert(s1[i] == s[i + 1] && t1[i] == t[i + 1]);
        }
        lemma_encode_ignoring_case(s1, t1);
        let c = s[0] as u32;
        let d = t[0] as u32;
        assert(fold_case(s[0] as u32) == fold_case(t[0] as u32));
        let es = encode_scalar(c);
        let et = encode_scalar(d);
        if c != d {
            lemma_ascii_scalar(c);
            lemma_ascii_scalar(d);
        }
        assert(es.len() == et.len());
        assert(encode_utf8(s) == es + encode_utf8(s1));
        assert(encode_utf8(t) == et + encode_utf8(t1));
        assert forall|k: int| 0 <= k < encode_utf8(s).len() implies upper(#[trigger] encode_utf8(s)[k])
            == upper(encode_utf8(t)[k]) by {
            if k < es.len() {
                assert(encode_utf8(s)[k] == es[k] && encode_utf8(t)[k] == et[k]);
            } else {
                assert(encode_utf8(s)[k] == encode_utf8(s1)[k - es.len()]);
                assert(encode_utf8(t)[k] == encode_utf8(t1)[k - et.len()]);
            }
        }
    }
}

/// Texts equal up to letter case split into tokens equal up to letter case.
proof fn lemma_tokens_ignoring_case(s: Seq<char>, t: Seq<char>)
    requires
        same_ignoring_case(s, t),
    ensures
        ws_tokens(s).len() == ws_tokens(t).len(),
        forall|i: int|
            0 <= i < ws_tokens(s).len() ==> same_ignoring_case(
                #[trigger] ws_tokens(s)[i],
                ws_tokens(t)[i],
            ),
    decreases s.len(),
{
    if s.len() > 0 {
        let s1 = s.drop_last();
        let t1 = t.drop_last();
        assert forall|i: int| 0 <= i < s1.len() implies fold_case(#[trigger] s1[i] as u32) == fold_case(
            t1[i] as u32,
        ) by {
            assert(s1[i] == s[i] && t1[i] == t[i]);
        }
        lemma_tokens_ignoring_case(s1, t1);
        let n = s.len() - 1;
        assert(fold_case(s[n] as u32) == fold_case(t[n] as u32));
        assert(s.last() == s[n] && t.last() == t[n]);
        assert(is_white_space(s.last()) == is_white_space(t.last()));
        if s.len() >= 2 {
            assert(fold_case(s[n - 1] as u32) == fold_case(t[n - 1] as u32));
            assert(is_white_space(s[s.len() - 2]) == is_white_space(t[t.len() - 2]));
        }
        let ps = ws_tokens(s1);
        let pt = ws_tokens(t1);
        if !is_white_space(s.last()) {
            if s.len() >= 2 && !is_white_space(s[s.len() - 2]) {
                assert(ps.len() > 0) by {
                    lemma_tokens_nonempty(s1);
                }
                let ls = ps.last().push(s.last());
                let lt = pt.last().push(t.last());
                assert(same_ignoring_case(ps.last(), pt.last())) by {
                    assert(ps.last() == ps[ps.len() - 1] && pt.last() == pt[pt.len() - 1]);
                }
                assert forall|i: int| 0 <= i < ls.len() implies fold_case(#[trigger] ls[i] as u32)
                    == fold_case(lt[i] as u32) by {
                    if i < ls.len() - 1 {
                        assert(ls[i] == ps.last()[i] && lt[i] == pt.last()[i]);
                    }
                }
                assert forall|i: int| 0 <= i < ws_tokens(s).len() implies same_ignoring_case(
                    #[trigger] ws_tokens(s)[i],
                    ws_tokens(t)[i],
                ) by {
                    if i < ps.len() - 1 {
                        assert(ws_tokens(s)[i] == ps[i] && ws_tokens(t)[i] == pt[i]);
                    }
                }
            } else {
                assert forall|i: int| 0 <= i < ws_tokens(s).len() implies same_ignoring_case(
                    #[trigger] ws_tokens(s)[i],
                    ws_tokens(t)[i],
                ) by {
                    if i < ps.len() {
                        assert(ws_tokens(s)[i] == ps[i] && ws_tokens(t)[i] == pt[i]);
                    } else {
                        assert(ws_tokens(s)[i] == seq![s.last()]);
                        assert(ws_tokens(t)[i] == seq![t.last()]);
                    }
                }
            }
        }
    }
}

/// A text that ends in a character other than white space has a token.
proof fn lemma_tokens_nonempty(s: Seq<char>)
    requires
        s.len() >= 1,
        !is_white_space(s.last()),
    ensures
        ws_tokens(s).len() > 0,
    decreases s.len(),
{
    if s.len() >= 2 && !is_white_space(s[s.len() - 2]) {
        assert(s.drop_last().last() == s[s.len() - 2]);
        lemma_tokens_nonempty(s.drop_last());
    }
}

/// Card names equal up to letter case name the same card, or are both
/// refused.
pub proof fn lemma_card_case_insensitive(s: Seq<char>, t: Seq<char>)
    requires
        same_ignoring_case(s, t),
    ensures
        (card_of_text(s) is Ok) == (card_of_text(t) is Ok),
        card_of_text(s) is Ok ==> card_of_text(s) == card_of_text(t),
{
    lemma_encode_ignoring_case(s, t);
    let b = encode_utf8(s);
    let c = encode_utf8(t);
    if b.len() == 2 {
        assert(upper(b[0]) == upper(c[0]));
        assert(upper(b[1]) == upper(c[1]));
        lemma_bytes_ignoring_case(b[0], c[0]);
        lemma_bytes_ignoring_case(b[1], c[1]);
        assert(card_of_bytes(b[0], b[1]) == card_of_bytes(c[0], b[1]));
    }
}

/// Concrete hands equal up to letter case name the same cards, or are both
/// refused; one holds a space exactly when the other does.
proof fn lemma_hand_text_ignoring_case(s: Seq<char>, t: Seq<char>)
    requires
        same_ignoring_case(s, t),
    ensures
        s.contains(' ') == t.contains(' '),
        (hand_of_text(s) is Ok) == (hand_of_text(t) is Ok),
        hand_of_text(s) is Ok ==> hand_of_text(s) == hand_of_text(t),
{
    lemma_encode_ignoring_case(s, t);
    if s.contains(' ') {
        let i = choose|i: int| 0 <= i < s.len() && s[i] == ' ';
        assert(fold_case(s[i] as u32) == fold_case(t[i] as u32));
        char_u32_cast(t[i], t[i] as u32);
        char_u32_cast(' ', ' ' as u32);
        assert(t[i] == ' ');
    }
    if t.contains(' ') {
        let i = choose|i: int| 0 <= i < t.len() && t[i] == ' ';
        assert(fold_case(s[i] as u32) == fold_case(t[i] as u32));
        char_u32_cast(s[i], s[i] as u32);
        char_u32_cast(' ', ' ' as u32);
        assert(s[i] == ' ');
    }
    let b = encode_utf8(s);
    let c = encode_utf8(t);
    if s.contains(' ') {
        lemma_tokens_ignoring_case(s, t);
        if ws_tokens(s).len() == 2 {
            lemma_card_case_insensitive(ws_tokens(s)[0], ws_tokens(t)[0]);
            lemma_card_case_insensitive(ws_tokens(s)[1], ws_tokens(t)[1]);
        }
    } else if b.len() == 4 {
        assert(upper(b[0]) == upper(c[0]) && upper(b[1]) == upper(c[1]));
        assert(upper(b[2]) == upper(c[2]) && upper(b[3]) == upper(c[3]));
        lemma_bytes_ignoring_case(b[0], c[0]);
        lemma_bytes_ignoring_case(b[1], c[1]);
        lemma_bytes_ignoring_case(b[2], c[2]);
        lemma_bytes_ignoring_case(b[3], c[3]);
        assert(card_of_bytes(b[0], b[1]) == card_of_bytes(c[0], b[1]));
        assert(card_of_bytes(b[2], b[3]) == card_of_bytes(c[2], b[3]));
    }
}

/// Hands are read without regard to the case of letters: two texts that
/// differ only in the case of ASCII letters name the same two cards, or are
/// both refused.
pub proof fn lemma_hand_case_insensitive(s: Seq<char>, t: Seq<char>, used: Seq<Card>)
    requires
        same_ignoring_case(s, t),
    ensures
        (hand_of_any(s, used) is Ok) == (hand_of_any(t, used) is Ok),
        hand_of_any(s, used) is Ok ==> hand_of_any(s, used) == hand_of_any(t, used),
{
    lemma_encode_ignoring_case(s, t);
    lemma_hand_text_ignoring_case(s, t);
    let b = encode_utf8(s);
    let c = encode_utf8(t);
    if b.len() == 2 || b.len() == 3 {
        assert(upper(b[0]) == upper(c[0]) && upper(b[1]) == upper(c[1]));
        lemma_bytes_ignoring_case(b[0], c[0]);
        lemma_bytes_ignoring_case(b[1], c[1]);
        if b.len() == 3 {
            assert(upper(b[2]) == upper(c[2]));
            lemma_bytes_ignoring_case(b[2], c[2]);
        }
    }
}

} // verus!
