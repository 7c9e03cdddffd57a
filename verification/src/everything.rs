use vstd::prelude::*;
use vstd::utf8::{encode_utf8, is_ascii_chars, is_ascii_chars_encode_utf8};

use crate::card::{
    hand_of_any, hand_text, make_card, parse_hand_any, valid_card, Card,
};
use crate::best_hand::distinct_valid;
use crate::sim::{board_deck, board_tally, lemma_all_boards_counted};
use crate::text::push_char;

verus! {

/// Bump this when the output schema gains new fields.
/// Files with a lower version will be re-computed on the next run.
pub const CURRENT_VERSION: u32 = 1;

// ---------------------------------------------------------------------------
// Canonical hand types
// ---------------------------------------------------------------------------

#[derive(Debug, Clone)]
pub enum HandType {
    Pair(u8),  // e.g. AA  -> rank = 14
    Suited(u8, u8),  // e.g. AKs -> rank1 = 14, rank2 = 13  (rank1 > rank2)
    Offsuit(u8, u8),  // e.g. KQo -> rank1 = 13, rank2 = 12  (rank1 > rank2)
}

/// The shorthand name of a hand type: "AA", "AKs" or "KQo".
pub open spec fn shorthand(t: HandType) -> Seq<char> {
    match t {
        HandType::Pair(r) => seq![crate::card::rank_char(r), crate::card::rank_char(r)],
        HandType::Suited(r1, r2) => seq![
            crate::card::rank_char(r1),
            crate::card::rank_char(r2),
            's',
        ],
        HandType::Offsuit(r1, r2) => seq![
            crate::card::rank_char(r1),
            crate::card::rank_char(r2),
            'o',
        ],
    }
}

/// A canonical hand type: a pair of a rank in 2..=14, or two ranks
/// 2 <= rank2 < rank1 <= 14.
pub open spec fn canonical(t: HandType) -> bool {
    match t {
        HandType::Pair(r) => 2 <= r <= 14,
        HandType::Suited(r1, r2) => 2 <= r2 < r1 <= 14,
        HandType::Offsuit(r1, r2) => 2 <= r2 < r1 <= 14,
    }
}

/// Pairs of rank `hi` down to rank `lo`.
pub open spec fn pairs_down(hi: int, lo: int) -> Seq<HandType>
    decreases hi - lo + 1,
{
    if lo > hi {
        seq![]
    } else {
        pairs_down(hi, lo + 1).push(HandType::Pair(lo as u8))
    }
}

pub open spec fn two_rank_type(suited: bool, r1: int, r2: int) -> HandType {
    if suited {
        HandType::Suited(r1 as u8, r2 as u8)
    } else {
        HandType::Offsuit(r1 as u8, r2 as u8)
    }
}

/// The types with high rank `r1` and low rank `r1 - 1` down to `lo`.
pub open spec fn row_down(suited: bool, r1: int, lo: int) -> Seq<HandType>
    decreases r1 - lo,
{
    if lo >= r1 {
        seq![]
    } else {
        row_down(suited, r1, lo + 1).push(two_rank_type(suited, r1, lo))
    }
}

/// The rows of high rank `hi` down to `lo`, each with low ranks descending to 2.
pub open spec fn rows_down(suited: bool, hi: int, lo: int) -> Seq<HandType>
    decreases hi - lo + 1,
{
    if lo > hi {
        seq![]
    } else {
        rows_down(suited, hi, lo + 1) + row_down(suited, lo, 2)
    }
}

/// All 169 canonical preflop hand types, ordered:
/// pairs (AA..22), suited (AKs..32s), offsuit (AKo..32o).
pub open spec fn hand_type_list() -> Seq<HandType> {
    pairs_down(14, 2) + rows_down(true, 14, 2) + rows_down(false, 14, 2)
}

fn rank_char(r: u8) -> (c: char)
    ensures
        c == crate::card::rank_char(r),
{
    if r >= 2 && r <= 9 {
        (48 + r) as char
    } else if r == 10 {
        'T'
    } else if r == 11 {
        'J'
    } else if r == 12 {
        'Q'
    } else if r == 13 {
        'K'
    } else if r == 14 {
        'A'
    } else {
        '?'
    }
}

proof fn lemma_name_is_short(t: HandType)
    ensures
        encode_utf8(shorthand(t)).len() == shorthand(t).len(),
        shorthand(t).len() == 2 || shorthand(t).len() == 3,
        !shorthand(t).contains(' '),
{
    let n = shorthand(t);
    assert(is_ascii_chars(n));
    is_ascii_chars_encode_utf8(n);
    if n.contains(' ') {
        let i = choose|i: int| 0 <= i < n.len() && n[i] == ' ';
    }
}

proof fn lemma_row_len(suited: bool, r1: int, lo: int)
    requires
        lo <= r1,
    ensures
        row_down(suited, r1, lo).len() == r1 - lo,
    decreases r1 - lo,
{
    if lo < r1 {
        lemma_row_len(suited, r1, lo + 1);
    }
}

proof fn lemma_rows_len(suited: bool, hi: int, lo: int)
    requires
        2 <= lo <= hi + 1,
    ensures
        2 * rows_down(suited, hi, lo).len() == (hi - 1) * (hi - 2) - (lo - 2) * (lo - 3),
    decreases hi - lo + 1,
{
    if lo <= hi {
        lemma_rows_len(suited, hi, lo + 1);
        lemma_row_len(suited, lo, 2);
        assert((hi - 1) * (hi - 2) - (lo - 1) * (lo - 2) + 2 * (lo - 2) == (hi - 1) * (hi - 2) - (lo
            - 2) * (lo - 3)) by (nonlinear_arith);
    }
}

proof fn lemma_pairs_len(hi: int, lo: int)
    requires
        lo <= hi + 1,
    ensures
        pairs_down(hi, lo).len() == hi - lo + 1,
    decreases hi - lo + 1,
{
    if lo <= hi {
        lemma_pairs_len(hi, lo + 1);
    }
}

/// There are 169 canonical hand types.
pub proof fn lemma_hand_type_count()
    ensures
        hand_type_list().len() == 169,
{
    lemma_pairs_len(14, 2);
    lemma_rows_len(true, 14, 2);
    lemma_rows_len(false, 14, 2);
}

/// Appends the row of types with high rank `r1` (low ranks descending).
fn push_row(types: &mut Vec<HandType>, suited: bool, r1: u8)
    requires
        2 <= r1 <= 14,
    ensures
        final(types)@ == old(types)@ + row_down(suited, r1 as int, 2),
{
    let ghost start = types@;
    let mut r2: u8 = r1;
    while r2 > 2
        invariant
            2 <= r2 <= r1 <= 14,
            types@ == start + row_down(suited, r1 as int, r2 as int),
        decreases r2,
    {
        r2 = r2 - 1;
        if suited {
            types.push(HandType::Suited(r1, r2));
        } else {
            types.push(HandType::Offsuit(r1, r2));
        }
        assert(types@ =~= start + row_down(suited, r1 as int, r2 as int));
    }
}

/// All 169 canonical preflop hand types, ordered:
/// pairs (AA..22), suited (AKs..32s), offsuit (AKo..32o).
pub fn all_hand_types() -> (types: Vec<HandType>)
    ensures
        types@ == hand_type_list(),
        types@.len() == 169,
{
    let mut types: Vec<HandType> = Vec::with_capacity(169);
    let mut r: u8 = 15;
    while r > 2
        invariant
            2 <= r <= 15,
            types@ == pairs_down(14, r as int),
        decreases r,
    {
        r = r - 1;
        types.push(HandType::Pair(r));
    }
    let ghost pairs = types@;
    let mut r1: u8 = 15;
    while r1 > 2
        invariant
            2 <= r1 <= 15,
            types@ == pairs + rows_down(true, 14, r1 as int),
        decreases r1,
    {
        r1 = r1 - 1;
        push_row(&mut types, true, r1);
        assert(types@ =~= pairs + rows_down(true, 14, r1 as int));
    }
    let ghost suited = types@;
    let mut r1: u8 = 15;
    while r1 > 2
        invariant
            2 <= r1 <= 15,
            types@ == suited + rows_down(false, 14, r1 as int),
        decreases r1,
    {
        r1 = r1 - 1;
        push_row(&mut types, false, r1);
        assert(types@ =~= suited + rows_down(false, 14, r1 as int));
    }
    proof {
        lemma_hand_type_count();
    }
    types
}

// ---------------------------------------------------------------------------
// Resumability
// ---------------------------------------------------------------------------

/// The unsigned integer stored under the key `key` of the JSON document
/// `content`, or `None` when `content` is not a JSON document, holds no such
/// key at its top level, or the value there is not an unsigned 64-bit
/// integer.
pub uninterp spec fn json_u64_member(content: Seq<char>, key: Seq<char>) -> Option<u64>;

/// Reads an unsigned member of a JSON document: parses `content` with
/// `serde_json::from_str` into a `serde_json::Value`, looks up `key` with
/// `Value::get` and reads the member with `Value::as_u64`. The contract only
/// names the result; serde_json's parser is not restated here.
#[verifier::external_body]
fn json_u64_at(content: &str, key: &str) -> (v: Option<u64>)
    ensures
        v == json_u64_member(content@, key@),
{
    let value: serde_json::Value = match serde_json::from_str(content) {
        Ok(value) => value,
        Err(_) => return None,
    };
    match value.get(key) {
        Some(member) => member.as_u64(),
        None => None,
    }
}

/// Whether a stored version meets the required one: it is present and not
/// below `required_version`.
pub open spec fn version_ok(v: Option<u64>, required_version: u32) -> bool {
    match v {
        Some(x) => x >= required_version,
        None => false,
    }
}

/// Whether the text of a stored matchup file counts as complete: it parses
/// as JSON and its "version" member is at least `required_version`.
pub open spec fn stored_version_ok(content: Seq<char>, required_version: u32) -> bool {
    version_ok(json_u64_member(content, "version"@), required_version)
}

/// Whether a stored version, if any, is at least `required_version`.
pub fn version_meets(v: Option<u64>, required_version: u32) -> (ok: bool)
    ensures
        ok == version_ok(v, required_version),
{
    match v {
        Some(x) => x >= required_version as u64,
        None => false,
    }
}

/// Returns true if `content` parses as valid JSON and has
/// `version >= required_version`.
pub fn is_complete_text(content: &str, required_version: u32) -> (ok: bool)
    ensures
        ok == stored_version_ok(content@, required_version),
{
    version_meets(json_u64_at(content, "version"), required_version)
}

// ---------------------------------------------------------------------------
// Matchups
// ---------------------------------------------------------------------------

/// The name of the file that stores a matchup: "{hand1}_vs_{hand2}.json".
pub open spec fn matchup_file(h1: HandType, h2: HandType) -> Seq<char> {
    shorthand(h1) + "_vs_"@ + shorthand(h2) + ".json"@
}

/// The cards of both hands of a matchup: the first resolved against no used
/// cards, the second avoiding the first.
pub open spec fn matchup_cards(h1: HandType, h2: HandType) -> Result<((Card, Card), (Card, Card)), Seq<char>> {
    match hand_of_any(shorthand(h1), seq![]) {
        Err(e) => Err(e),
        Ok((a0, a1)) => match hand_of_any(shorthand(h2), seq![a0, a1]) {
            Err(e) => Err(e),
            Ok((b0, b1)) => Ok(((a0, a1), (b0, b1))),
        },
    }
}

pub open spec fn matchup_text(r: Result<([Card; 2], [Card; 2]), String>) -> Result<((Card, Card), (Card, Card)), Seq<char>> {
    match r {
        Ok((a, b)) => Ok(((a[0], a[1]), (b[0], b[1]))),
        Err(e) => Err(e@),
    }
}

/// "{hand1}_vs_{hand2}.json"
pub fn matchup_file_name(h1: &HandType, h2: &HandType) -> (s: String)
    ensures
        s@ == matchup_file(*h1, *h2),
{
    let mut s = h1.name();
    s.append("_vs_");
    s.append(h2.name().as_str());
    s.append(".json");
    s
}

/// Resolves shorthand to specific cards, avoiding conflicts: the first hand
/// against no used cards, the second against the first.
pub fn resolve_matchup(h1: &HandType, h2: &HandType) -> (r: Result<([Card; 2], [Card; 2]), String>)
    ensures
        matchup_text(r) == matchup_cards(*h1, *h2),
{
    let mut used: Vec<Card> = Vec::new();
    let cards1 = match h1.resolve(used.as_slice()) {
        Ok(c) => c,
        Err(e) => return Err(e),
    };
    used.push(cards1[0]);
    used.push(cards1[1]);
    assert(used@ =~= seq![cards1[0], cards1[1]]);
    let cards2 = match h2.resolve(used.as_slice()) {
        Ok(c) => c,
        Err(e) => return Err(e),
    };
    Ok((cards1, cards2))
}

// ---------------------------------------------------------------------------
// The batch run
// ---------------------------------------------------------------------------

/// How many matchups the rows before row `i` of the upper triangle of an
/// `n` by `n` table hold: row `r` holds the `n - r` matchups `(r, r..n)`.
pub open spec fn rows_before(i: int, n: int) -> int
    decreases i,
{
    if i <= 0 {
        0
    } else {
        rows_before(i - 1, n) + (n - (i - 1))
    }
}

/// The place of matchup `(i, j)`, `i <= j`, in the run: row by row, and
/// along each row from the diagonal.
pub open spec fn matchup_position(i: int, j: int, n: int) -> int {
    rows_before(i, n) + (j - i)
}

/// The matchup after `(i, j)` among the `n` hand types: the next one along
/// the row, else the first of the next row, else none.
pub open spec fn next_pair(i: int, j: int, n: int) -> Option<(int, int)> {
    if j + 1 < n {
        Some((i, j + 1))
    } else if i + 1 < n {
        Some((i + 1, i + 1))
    } else {
        None
    }
}

/// The number of matchups of `n` hand types, each against itself and every
/// later one: `n * (n + 1) / 2`.
pub fn matchup_total(n: usize) -> (total: usize)
    requires
        n * (n + 1) <= usize::MAX,
    ensures
        2 * total == n * (n + 1),
{
    assert(n + 1 <= usize::MAX) by (nonlinear_arith)
        requires
            n * (n + 1) <= usize::MAX,
            n >= 0,
    ;
    proof {
        let q = n / 2;
        if n % 2 == 0 {
            assert(n * (n + 1) == 2 * (q * (n + 1))) by (nonlinear_arith)
                requires
                    n == 2 * q,
            ;
        } else {
            assert(n * (n + 1) == 2 * (n * (q + 1))) by (nonlinear_arith)
                requires
                    n == 2 * q + 1,
            ;
        }
    }
    n * (n + 1) / 2
}

/// The matchup that the run takes up after `(i, j)`.
pub fn next_matchup(i: usize, j: usize, n: usize) -> (next: Option<(usize, usize)>)
    requires
        i <= j < n,
    ensures
        match next {
            Some((a, b)) => next_pair(i as int, j as int, n as int) == Some((a as int, b as int)),
            None => next_pair(i as int, j as int, n as int) is None,
        },
{
    if j + 1 < n {
        Some((i, j + 1))
    } else if i + 1 < n {
        Some((i + 1, i + 1))
    } else {
        None
    }
}

/// What became of one matchup of the run.
pub enum MatchupOutcome {
    /// Its file was already complete.
    Skipped,
    /// It was simulated and written.
    Computed,
    /// Its hands could not be resolved.
    Failed,
}

/// The counts of a batch run so far.
pub struct BatchTally {
    pub computed: usize,
    pub skipped: usize,
    pub errors: usize,
}

impl BatchTally {
    /// No matchup seen yet.
    pub fn new() -> (t: BatchTally)
        ensures
            t.computed == 0 && t.skipped == 0 && t.errors == 0,
    {
        BatchTally { computed: 0, skipped: 0, errors: 0 }
    }

    /// Counts one more matchup under its outcome.
    pub fn record(&mut self, outcome: MatchupOutcome)
        requires
            old(self).computed < usize::MAX,
            old(self).skipped < usize::MAX,
            old(self).errors < usize::MAX,
        ensures
            final(self).computed == old(self).computed + (if outcome is Computed { 1int } else { 0int }),
            final(self).skipped == old(self).skipped + (if outcome is Skipped { 1int } else { 0int }),
            final(self).errors == old(self).errors + (if outcome is Failed { 1int } else { 0int }),
    {
        match outcome {
            MatchupOutcome::Skipped => self.skipped = self.skipped + 1,
            MatchupOutcome::Computed => self.computed = self.computed + 1,
            MatchupOutcome::Failed => self.errors = self.errors + 1,
        }
    }

    /// Whether to report progress after a computed matchup: every 50
    /// computed, and when the last matchup of the run is done.
    pub fn report_due(&self, total_matchups: usize) -> (due: bool)
        ensures
            due == (self.computed % 50 == 0 || self.computed + self.skipped == total_matchups),
    {
        self.computed % 50 == 0 || (self.computed as u128) + (self.skipped as u128)
            == total_matchups as u128
    }
}

impl HandType {
    /// The shorthand name, e.g. "AA", "AKs" or "KQo".
    pub fn name(&self) -> (s: String)
        ensures
            s@ == shorthand(*self),
    {
        let mut s = String::new();
        match self {
            HandType::Pair(r) => {
                push_char(&mut s, rank_char(*r));
                push_char(&mut s, rank_char(*r));
            },
            HandType::Suited(r1, r2) => {
                push_char(&mut s, rank_char(*r1));
                push_char(&mut s, rank_char(*r2));
                push_char(&mut s, 's');
            },
            HandType::Offsuit(r1, r2) => {
                push_char(&mut s, rank_char(*r1));
                push_char(&mut s, rank_char(*r2));
                push_char(&mut s, 'o');
            },
        }
        s
    }

    /// Resolves the type to concrete cards, avoiding those in `used`.
    pub fn resolve(&self, used: &[Card]) -> (r: Result<[Card; 2], String>)
        ensures
            hand_text(r) == hand_of_any(shorthand(*self), used@),
    {
        proof {
            lemma_name_is_short(*self);
        }
        parse_hand_any(self.name().as_str(), used)
    }
}

} // verus!

verus! {

// ---------------------------------------------------------------------------
// Laws
// ---------------------------------------------------------------------------

proof fn lemma_rank_char_parses(r: u8)
    requires
        2 <= r <= 14,
    ensures
        crate::card::rank_result(crate::card::rank_char(r) as u8) == Ok::<u8, Seq<char>>(r),
{
}

/// Every canonical hand type can be dealt while at most two cards are in
/// use: two different cards, neither of them in use, of the type's ranks;
/// a pair or an offsuit hand in two suits, a suited hand in one.
pub proof fn lemma_canonical_type_resolves(t: HandType, used: Seq<Card>)
    requires
        canonical(t),
        used.len() <= 2,
    ensures
        hand_of_any(shorthand(t), used) is Ok,
        hand_of_any(shorthand(t), used) matches Ok((c1, c2)) ==> {
            &&& c1 != c2
            &&& valid_card(c1)
            &&& valid_card(c2)
            &&& !used.contains(c1)
            &&& !used.contains(c2)
            &&& match t {
                HandType::Pair(r) => c1.rank.0 == r && c2.rank.0 == r && c1.suit != c2.suit,
                HandType::Suited(r1, r2) => c1.rank.0 == r1 && c2.rank.0 == r2 && c1.suit
                    == c2.suit,
                HandType::Offsuit(r1, r2) => c1.rank.0 == r1 && c2.rank.0 == r2 && c1.suit
                    != c2.suit,
            }
        },
{
    let n = shorthand(t);
    lemma_name_is_short(t);
    is_ascii_chars_encode_utf8(n);
    let b = encode_utf8(n);
    match t {
        HandType::Pair(r) => {
            lemma_rank_char_parses(r);
            assert(b[0] == n[0] as u8 && b[1] == n[1] as u8);
            crate::card::lemma_choices_succeed(r, r, used);
            crate::card::lemma_choices_avoid_used(r, r, used);
        },
        HandType::Suited(r1, r2) => {
            lemma_rank_char_parses(r1);
            lemma_rank_char_parses(r2);
            assert(b[0] == n[0] as u8 && b[1] == n[1] as u8 && b[2] == n[2] as u8);
            crate::card::lemma_choices_succeed(r1, r2, used);
            crate::card::lemma_choices_avoid_used(r1, r2, used);
        },
        HandType::Offsuit(r1, r2) => {
            lemma_rank_char_parses(r1);
            lemma_rank_char_parses(r2);
            assert(b[0] == n[0] as u8 && b[1] == n[1] as u8 && b[2] == n[2] as u8);
            crate::card::lemma_choices_succeed(r1, r2, used);
            crate::card::lemma_choices_avoid_used(r1, r2, used);
        },
    }
}

/// Any two canonical hand types resolve, as a matchup, to four different cards.
pub proof fn lemma_matchup_resolves(t1: HandType, t2: HandType)
    requires
        canonical(t1),
        canonical(t2),
    ensures
        matchup_cards(t1, t2) is Ok,
        matchup_cards(t1, t2) matches Ok(((a0, a1), (b0, b1))) ==> a0 != a1 && a0 != b0 && a0 != b1
            && a1 != b0 && a1 != b1 && b0 != b1 && valid_card(a0) && valid_card(a1) && valid_card(b0)
            && valid_card(b1),
{
    lemma_canonical_type_resolves(t1, seq![]);
    if let Ok((a0, a1)) = hand_of_any(shorthand(t1), seq![]) {
        let used = seq![a0, a1];
        lemma_canonical_type_resolves(t2, used);
        assert(used.contains(a0) && used.contains(a1)) by {
            assert(used[0] == a0 && used[1] == a1);
        }
    }
}


proof fn lemma_pairs_canonical(hi: int, lo: int)
    requires
        2 <= lo,
        hi <= 14,
    ensures
        forall|k: int| 0 <= k < pairs_down(hi, lo).len() ==> canonical(#[trigger] pairs_down(hi, lo)[k]),
    decreases hi - lo + 1,
{
    if lo <= hi {
        lemma_pairs_canonical(hi, lo + 1);
        let prev = pairs_down(hi, lo + 1);
        assert forall|k: int| 0 <= k < pairs_down(hi, lo).len() implies canonical(
            #[trigger] pairs_down(hi, lo)[k],
        ) by {
            if k < prev.len() {
                assert(pairs_down(hi, lo)[k] == prev[k]);
            }
        }
    }
}

proof fn lemma_row_canonical(suited: bool, r1: int, lo: int)
    requires
        2 <= lo,
        r1 <= 14,
    ensures
        forall|k: int|
            0 <= k < row_down(suited, r1, lo).len() ==> canonical(#[trigger] row_down(suited, r1, lo)[k]),
    decreases r1 - lo,
{
    if lo < r1 {
        lemma_row_canonical(suited, r1, lo + 1);
        let prev = row_down(suited, r1, lo + 1);
        assert forall|k: int| 0 <= k < row_down(suited, r1, lo).len() implies canonical(
            #[trigger] row_down(suited, r1, lo)[k],
        ) by {
            if k < prev.len() {
                assert(row_down(suited, r1, lo)[k] == prev[k]);
            }
        }
    }
}

proof fn lemma_rows_canonical(suited: bool, hi: int, lo: int)
    requires
        2 <= lo,
        hi <= 14,
    ensures
        forall|k: int|
            0 <= k < rows_down(suited, hi, lo).len() ==> canonical(#[trigger] rows_down(suited, hi, lo)[k]),
    decreases hi - lo + 1,
{
    if lo <= hi {
        lemma_rows_canonical(suited, hi, lo + 1);
        lemma_row_canonical(suited, lo, 2);
        let a = rows_down(suited, hi, lo + 1);
        let b = row_down(suited, lo, 2);
        assert forall|k: int| 0 <= k < (a + b).len() implies canonical(#[trigger] (a + b)[k]) by {
            if k < a.len() {
                assert((a + b)[k] == a[k]);
            } else {
                assert((a + b)[k] == b[k - a.len()]);
            }
        }
    }
}

/// Every entry of the list of hand types is canonical, so every matchup of
/// two entries resolves to four different cards.
pub proof fn lemma_hand_type_list_canonical()
    ensures
        forall|k: int| 0 <= k < hand_type_list().len() ==> canonical(#[trigger] hand_type_list()[k]),
{
    lemma_pairs_canonical(14, 2);
    lemma_rows_canonical(true, 14, 2);
    lemma_rows_canonical(false, 14, 2);
    let p = pairs_down(14, 2);
    let s = rows_down(true, 14, 2);
    let o = rows_down(false, 14, 2);
    assert forall|k: int| 0 <= k < (p + s + o).len() implies canonical(#[trigger] (p + s + o)[k]) by {
        if k < p.len() {
            assert((p + s + o)[k] == p[k]);
        } else if k < p.len() + s.len() {
            assert((p + s + o)[k] == s[k - p.len()]);
        } else {
            assert((p + s + o)[k] == o[k - p.len() - s.len()]);
        }
    }
}

/// Each row of `n` matchups adds `n - i` to the count; the whole table
/// holds `n * (n + 1) / 2`.
proof fn lemma_rows_before(i: int, n: int)
    requires
        0 <= i,
    ensures
        2 * rows_before(i, n) == i * (2 * n - i + 1),
    decreases i,
{
    if i > 0 {
        lemma_rows_before(i - 1, n);
        assert(2 * (rows_before(i - 1, n) + (n - (i - 1))) == i * (2 * n - i + 1)) by (nonlinear_arith)
            requires
                2 * rows_before(i - 1, n) == (i - 1) * (2 * n - (i - 1) + 1),
        ;
    } else {
        assert(i * (2 * n - i + 1) == 0) by (nonlinear_arith)
            requires
                i == 0,
        ;
    }
}

/// The run visits every matchup `(i, j)` with `i <= j < n` once, in order:
/// it starts at position 0, each step moves to the next position, and it
/// stops after position `n * (n + 1) / 2 - 1`, so it takes up exactly
/// `n * (n + 1) / 2` matchups.
pub proof fn lemma_matchup_order(i: int, j: int, n: int)
    requires
        0 <= i <= j < n,
    ensures
        matchup_position(0, 0, n) == 0,
        0 <= matchup_position(i, j, n),
        2 * (matchup_position(i, j, n) + 1) <= n * (n + 1),
        match next_pair(i, j, n) {
            Some((a, b)) => 0 <= a <= b < n && matchup_position(a, b, n) == matchup_position(i, j, n)
                + 1,
            None => 2 * (matchup_position(i, j, n) + 1) == n * (n + 1),
        },
{
    lemma_rows_before(i, n);
    lemma_rows_before(i + 1, n);
    lemma_rows_before(n, n);
    assert(2 * (rows_before(i, n) + (j - i) + 1) <= n * (n + 1)) by (nonlinear_arith)
        requires
            2 * rows_before(i, n) == i * (2 * n - i + 1),
            0 <= i <= j < n,
    ;
    assert(rows_before(i, n) >= 0) by (nonlinear_arith)
        requires
            2 * rows_before(i, n) == i * (2 * n - i + 1),
            0 <= i < n,
    ;
    if j + 1 >= n && i + 1 >= n {
        assert(2 * (rows_before(i, n) + (j - i) + 1) == n * (n + 1)) by (nonlinear_arith)
            requires
                2 * rows_before(i, n) == i * (2 * n - i + 1),
                i == n - 1,
                j == n - 1,
        ;
    }
}

/// Every matchup of the batch run resolves to four distinct valid cards,
/// so its simulation counts all C(48,5) = 1,712,304 boards.
pub proof fn lemma_matchup_counts_all_boards(t1: HandType, t2: HandType)
    requires
        canonical(t1),
        canonical(t2),
    ensures
        matchup_cards(t1, t2) matches Ok(((a0, a1), (b0, b1))) ==> board_tally(
            seq![a0, a1],
            seq![b0, b1],
            board_deck(seq![a0, a1], seq![b0, b1]),
            2,
        ) == 1_712_304,
{
    lemma_matchup_resolves(t1, t2);
    if let Ok(((a0, a1), (b0, b1))) = matchup_cards(t1, t2) {
        let h1 = seq![a0, a1];
        let h2 = seq![b0, b1];
        let hole = seq![h1[0], h1[1], h2[0], h2[1]];
        assert(hole =~= seq![a0, a1, b0, b1]);
        assert(distinct_valid(hole));
        lemma_all_boards_counted(h1, h2);
    }
}

/// The order of hand types along the list: pairs first, then suited, then
/// offsuit types, each by high rank and then low rank, descending.
spec fn type_key(t: HandType) -> int {
    match t {
        HandType::Pair(r) => 3000 + r,
        HandType::Suited(r1, r2) => 2000 + 16 * r1 + r2,
        HandType::Offsuit(r1, r2) => 1000 + 16 * r1 + r2,
    }
}

proof fn lemma_pairs_members(hi: int, lo: int)
    requires
        2 <= lo,
        hi <= 14,
    ensures
        forall|i: int, j: int|
            0 <= i < j < pairs_down(hi, lo).len() ==> type_key(pairs_down(hi, lo)[i]) > type_key(
                pairs_down(hi, lo)[j],
            ),
        forall|i: int| 0 <= i < pairs_down(hi, lo).len() ==> #[trigger] pairs_down(hi, lo)[i] is Pair
            && lo <= pairs_down(hi, lo)[i]->Pair_0 <= hi,
        forall|r: u8| lo <= r <= hi ==> pairs_down(hi, lo).contains(HandType::Pair(r)),
    decreases hi - lo + 1,
{
    if lo <= hi {
        lemma_pairs_members(hi, lo + 1);
        let prev = pairs_down(hi, lo + 1);
        let cur = pairs_down(hi, lo);
        assert(cur == prev.push(HandType::Pair(lo as u8)));
        assert forall|r: u8| lo <= r <= hi implies cur.contains(HandType::Pair(r)) by {
            if r == lo {
                assert(cur[prev.len() as int] == HandType::Pair(r));
            } else {
                assert(prev.contains(HandType::Pair(r)));
                let k = choose|k: int| 0 <= k < prev.len() && prev[k] == HandType::Pair(r);
                assert(cur[k] == prev[k]);
            }
        }
        assert forall|i: int, j: int| 0 <= i < j < cur.len() implies type_key(cur[i]) > type_key(cur[j]) by {
            assert(cur[i] == prev[i]);
            if j < prev.len() {
                assert(cur[j] == prev[j]);
            }
        }
        assert forall|i: int| 0 <= i < cur.len() implies #[trigger] cur[i] is Pair && lo <= cur[i]->Pair_0 <= hi by {
            if i < prev.len() {
                assert(cur[i] == prev[i]);
            }
        }
    }
}

proof fn lemma_row_members(suited: bool, r1: int, lo: int)
    requires
        2 <= lo,
        r1 <= 14,
    ensures
        forall|i: int, j: int|
            0 <= i < j < row_down(suited, r1, lo).len() ==> type_key(row_down(suited, r1, lo)[i]) > type_key(
                row_down(suited, r1, lo)[j],
            ),
        forall|i: int|
            0 <= i < row_down(suited, r1, lo).len() ==> exists|r2: int|
                lo <= r2 < r1 && #[trigger] row_down(suited, r1, lo)[i] == two_rank_type(suited, r1, r2),
        forall|r2: int| lo <= r2 < r1 ==> row_down(suited, r1, lo).contains(two_rank_type(suited, r1, r2)),
    decreases r1 - lo,
{
    if lo < r1 {
        lemma_row_members(suited, r1, lo + 1);
        let prev = row_down(suited, r1, lo + 1);
        let cur = row_down(suited, r1, lo);
        let last = two_rank_type(suited, r1, lo);
        assert(cur == prev.push(last));
        assert forall|r2: int| lo <= r2 < r1 implies cur.contains(two_rank_type(suited, r1, r2)) by {
            if r2 == lo {
                assert(cur[prev.len() as int] == last);
            } else {
                let k = choose|k: int| 0 <= k < prev.len() && prev[k] == two_rank_type(suited, r1, r2);
                assert(cur[k] == prev[k]);
            }
        }
        assert forall|i: int| 0 <= i < cur.len() implies exists|r2: int|
            lo <= r2 < r1 && #[trigger] cur[i] == two_rank_type(suited, r1, r2) by {
            if i < prev.len() {
                assert(cur[i] == prev[i]);
                let r2 = choose|r2: int| lo + 1 <= r2 < r1 && #[trigger] prev[i] == two_rank_type(suited, r1, r2);
                assert(cur[i] == two_rank_type(suited, r1, r2));
            } else {
                assert(cur[i] == two_rank_type(suited, r1, lo));
            }
        }
        assert forall|i: int, j: int| 0 <= i < j < cur.len() implies type_key(cur[i]) > type_key(cur[j]) by {
            assert(cur[i] == prev[i]);
            let r2 = choose|r2: int| lo + 1 <= r2 < r1 && #[trigger] prev[i] == two_rank_type(suited, r1, r2);
            if j < prev.len() {
                assert(cur[j] == prev[j]);
            }
        }
    }
}

proof fn lemma_rows_members(suited: bool, hi: int, lo: int)
    requires
        2 <= lo,
        hi <= 14,
    ensures
        forall|i: int, j: int|
            0 <= i < j < rows_down(suited, hi, lo).len() ==> type_key(rows_down(suited, hi, lo)[i])
                > type_key(rows_down(suited, hi, lo)[j]),
        forall|i: int|
            0 <= i < rows_down(suited, hi, lo).len() ==> exists|r1: int, r2: int|
                2 <= r2 < r1 && lo <= r1 <= hi && #[trigger] rows_down(suited, hi, lo)[i]
                    == two_rank_type(suited, r1, r2),
        forall|r1: int, r2: int|
            2 <= r2 < r1 && lo <= r1 <= hi ==> rows_down(suited, hi, lo).contains(
                two_rank_type(suited, r1, r2),
            ),
    decreases hi - lo + 1,
{
    if lo <= hi {
        lemma_rows_members(suited, hi, lo + 1);
        lemma_row_members(suited, lo, 2);
        let a = rows_down(suited, hi, lo + 1);
        let b = row_down(suited, lo, 2);
        let cur = rows_down(suited, hi, lo);
        assert(cur == a + b);
        assert forall|r1: int, r2: int| 2 <= r2 < r1 && lo <= r1 <= hi implies cur.contains(
            two_rank_type(suited, r1, r2),
        ) by {
            if r1 == lo {
                let k = choose|k: int| 0 <= k < b.len() && b[k] == two_rank_type(suited, r1, r2);
                assert(cur[a.len() + k] == b[k]);
            } else {
                let k = choose|k: int| 0 <= k < a.len() && a[k] == two_rank_type(suited, r1, r2);
                assert(cur[k] == a[k]);
            }
        }
        assert forall|i: int| 0 <= i < cur.len() implies exists|r1: int, r2: int|
            2 <= r2 < r1 && lo <= r1 <= hi && #[trigger] cur[i] == two_rank_type(suited, r1, r2) by {
            if i < a.len() {
                assert(cur[i] == a[i]);
                let (r1, r2) = choose|r1: int, r2: int|
                    2 <= r2 < r1 && lo + 1 <= r1 <= hi && #[trigger] a[i] == two_rank_type(suited, r1, r2);
                assert(cur[i] == two_rank_type(suited, r1, r2));
            } else {
                assert(cur[i] == b[i - a.len()]);
                let r2 = choose|r2: int| 2 <= r2 < lo && #[trigger] b[i - a.len()] == two_rank_type(suited, lo, r2);
                assert(cur[i] == two_rank_type(suited, lo, r2));
            }
        }
        assert forall|i: int, j: int| 0 <= i < j < cur.len() implies type_key(cur[i]) > type_key(cur[j]) by {
            if j < a.len() {
                assert(cur[i] == a[i] && cur[j] == a[j]);
            } else if i >= a.len() {
                assert(cur[i] == b[i - a.len()] && cur[j] == b[j - a.len()]);
            } else {
                assert(cur[i] == a[i] && cur[j] == b[j - a.len()]);
                let (r1, r2) = choose|r1: int, r2: int|
                    2 <= r2 < r1 && lo + 1 <= r1 <= hi && #[trigger] a[i] == two_rank_type(suited, r1, r2);
                let s2 = choose|s2: int| 2 <= s2 < lo && #[trigger] b[j - a.len()] == two_rank_type(suited, lo, s2);
            }
        }
    }
}

/// The list of hand types holds every canonical type exactly once: each
/// pocket pair, and each pair of ranks both suited and offsuit, with no
/// type twice.
pub proof fn lemma_hand_types_each_once()
    ensures
        hand_type_list().len() == 169,
        forall|t: HandType| #[trigger] hand_type_list().contains(t) <==> canonical(t),
        forall|i: int, j: int|
            0 <= i < j < hand_type_list().len() ==> hand_type_list()[i] != hand_type_list()[j],
{
    lemma_hand_type_count();
    lemma_hand_type_list_canonical();
    lemma_pairs_members(14, 2);
    lemma_rows_members(true, 14, 2);
    lemma_rows_members(false, 14, 2);
    let p = pairs_down(14, 2);
    let s = rows_down(true, 14, 2);
    let o = rows_down(false, 14, 2);
    let l = hand_type_list();
    assert(l == p + s + o);
    assert forall|i: int| 0 <= i < l.len() implies #[trigger] l[i] == (if i < p.len() {
        p[i]
    } else if i < p.len() + s.len() {
        s[i - p.len()]
    } else {
        o[i - p.len() - s.len()]
    }) by {}
    assert forall|t: HandType| #[trigger] l.contains(t) <==> canonical(t) by {
        if l.contains(t) {
            let k = choose|k: int| 0 <= k < l.len() && l[k] == t;
            assert(canonical(l[k]));
        }
        if canonical(t) {
            match t {
                HandType::Pair(r) => {
                    assert(p.contains(HandType::Pair(r)));
                    let k = choose|k: int| 0 <= k < p.len() && p[k] == t;
                    assert(l[k] == t);
                },
                HandType::Suited(r1, r2) => {
                    assert(two_rank_type(true, r1 as int, r2 as int) == t);
                    let k = choose|k: int| 0 <= k < s.len() && s[k] == t;
                    assert(l[p.len() + k] == t);
                },
                HandType::Offsuit(r1, r2) => {
                    assert(two_rank_type(false, r1 as int, r2 as int) == t);
                    let k = choose|k: int| 0 <= k < o.len() && o[k] == t;
                    assert(l[p.len() + s.len() + k] == t);
                },
            }
        }
    }
    assert forall|i: int, j: int| 0 <= i < j < l.len() implies l[i] != l[j] by {
        assert(l[i] == (if i < p.len() {
            p[i]
        } else if i < p.len() + s.len() {
            s[i - p.len()]
        } else {
            o[i - p.len() - s.len()]
        }));
        assert(l[j] == (if j < p.len() {
            p[j]
        } else if j < p.len() + s.len() {
            s[j - p.len()]
        } else {
            o[j - p.len() - s.len()]
        }));
        if i < p.len() && j >= p.len() + s.len() {
            let (r1, r2) = choose|r1: int, r2: int|
                2 <= r2 < r1 && 2 <= r1 <= 14 && #[trigger] o[j - p.len() - s.len()] == two_rank_type(false, r1, r2);
        } else if i < p.len() && j >= p.len() {
            let (r1, r2) = choose|r1: int, r2: int|
                2 <= r2 < r1 && 2 <= r1 <= 14 && #[trigger] s[j - p.len()] == two_rank_type(true, r1, r2);
        } else if i < p.len() + s.len() && j >= p.len() + s.len() {
            let (r1, r2) = choose|r1: int, r2: int|
                2 <= r2 < r1 && 2 <= r1 <= 14 && #[trigger] s[i - p.len()] == two_rank_type(true, r1, r2);
            let (q1, q2) = choose|q1: int, q2: int|
                2 <= q2 < q1 && 2 <= q1 <= 14 && #[trigger] o[j - p.len() - s.len()] == two_rank_type(false, q1, q2);
        }
    }
}

} // verus!
