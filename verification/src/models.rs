//! Orders, the slots of the grid they belong to, and the client order ids that
//! name those slots.
use crate::text::{
    chars_of, digits_value, find_char, first_position, i32_of, is_digit, least, lemma_first_position,
    lemma_radix_ten, radix, radix_text, read_i32, ten_to, text_between,
};
use std::collections::hash_map::{DefaultHasher, RandomState};
use std::hash::{BuildHasher, Hasher};
use vstd::prelude::*;

verus! {

/// The side of the book a position is held on.
#[derive(Debug, Clone, Copy, PartialEq, Eq, Hash, Structural)]
pub enum PosSide {
    Long,
    Short,
}

/// The direction of an order.
#[derive(Debug, Clone, Copy, PartialEq, Eq, Hash, Structural)]
pub enum Side {
    Buy,
    Sell,
}

/// An order to be placed.
#[derive(Debug, Clone)]
pub struct OrderCommand {
    pub cl_ord_id: String,
    pub pos_side: PosSide,
    pub side: Side,
    pub price: String,
    pub size: String,
}

/// What the trading session is asked to do.
pub enum WsCommand {
    Place(Vec<OrderCommand>),
    Cancel(Vec<String>),
}

/// What every client order id of the grid begins with.
pub open spec fn id_mark() -> Seq<char> {
    seq!['N', 'G', 'B']
}

/// No client order id is longer than this.
pub open spec fn id_limit() -> int {
    32
}

/// The letter of a position side.
pub open spec fn pos_side_letter(pos_side: PosSide) -> char {
    match pos_side {
        PosSide::Long => 'L',
        PosSide::Short => 'S',
    }
}

/// The letter of a side.
pub open spec fn side_letter(side: Side) -> char {
    match side {
        Side::Buy => 'B',
        Side::Sell => 'S',
    }
}

/// A level of the grid in text: `M` stands for the minus sign.
pub open spec fn level_text(k: int) -> Seq<char> {
    if k < 0 {
        seq!['M'] + radix((-k) as nat, 10)
    } else {
        radix(k as nat, 10)
    }
}

/// The part of a client order id that names the slot.
pub open spec fn slot_text(pos_side: PosSide, side: Side, k: int) -> Seq<char> {
    id_mark() + seq![pos_side_letter(pos_side), side_letter(side)] + level_text(k)
}

/// The client order id of a slot, told apart from others by `word` and `count`.
pub open spec fn id_text(pos_side: PosSide, side: Side, k: int, word: u64, count: usize) -> Seq<
    char,
> {
    let whole = slot_text(pos_side, side, k) + seq!['R'] + radix(word as nat, 16)
        + radix(count as nat, 16);
    whole.take(least(whole.len() as int, id_limit()))
}

/// The level that a text names.
pub open spec fn level_of(s: Seq<char>) -> Option<i32> {
    if s.len() > 0 && s[0] == 'M' {
        match i32_of(s.skip(1)) {
            Some(v) => Some(if v == i32::MIN {
                v
            } else {
                (-v) as i32
            }),
            None => None,
        }
    } else {
        i32_of(s)
    }
}

/// The slot that a client order id names, if it is one of the grid's.
pub open spec fn slot_of(id: Seq<char>) -> Option<(PosSide, Side, i32)> {
    let r = first_position(id, 'R') as int;
    if !id_mark().is_prefix_of(id) || r >= id.len() || r < 5 {
        None
    } else {
        match level_of(id.subrange(5, r)) {
            Some(k) => if id[3] != 'L' && id[3] != 'S' || id[4] != 'B' && id[4] != 'S' {
                None
            } else {
                Some(
                    (
                        if id[3] == 'L' {
                            PosSide::Long
                        } else {
                            PosSide::Short
                        },
                        if id[4] == 'B' {
                            Side::Buy
                        } else {
                            Side::Sell
                        },
                        k,
                    ),
                )
            },
            None => None,
        }
    }
}

/// The count behind `count`; behind the last one comes zero.
pub open spec fn next_count(count: usize) -> usize {
    if count == usize::MAX {
        0
    } else {
        (count + 1) as usize
    }
}

/// Counts the client order ids that were made.
pub struct OrderCounter {
    made: usize,
}

impl View for OrderCounter {
    type V = usize;

    closed spec fn view(&self) -> usize {
        self.made
    }
}

impl OrderCounter {
    /// A counter that starts at zero.
    pub fn new() -> (c: OrderCounter)
        ensures
            c@ == 0,
    {
        OrderCounter { made: 0 }
    }

    /// The count so far; the counter moves on by one and wraps at the end.
    pub fn fetch_next(&mut self) -> (count: usize)
        ensures
            count == old(self)@,
            final(self)@ == next_count(old(self)@),
    {
        let count: usize = self.made;
        self.made = if count == usize::MAX {
            0
        } else {
            count + 1
        };
        count
    }
}

/// `RandomState::new` makes a hasher family with keys of its own. Nothing is claimed
/// of the keys.
pub assume_specification[ RandomState::new ]() -> (s: RandomState)
;

/// `BuildHasher::build_hasher` makes a hasher of the family. Nothing is claimed of it.
#[verifier::external_body]
fn hasher_of(state: &RandomState) -> (h: DefaultHasher) {
    state.build_hasher()
}

/// The digest that a freshly keyed hasher gives of nothing: a word that chance decides.
fn random_word() -> (word: u64) {
    let state = RandomState::new();
    let hasher = hasher_of(&state);
    hasher.finish()
}

/// Writes the client order id of a slot, with `word` and `count` given.
pub fn compose_cl_ord_id(
    pos_side: PosSide,
    side: Side,
    k: i32,
    word: u64,
    count: usize,
) -> (id: String)
    requires
        k > i32::MIN,
    ensures
        id@ == id_text(pos_side, side, k as int, word, count),
{
    let mut id = String::new();
    id.push('N');
    id.push('G');
    id.push('B');
    id.push(
        match pos_side {
            PosSide::Long => 'L',
            PosSide::Short => 'S',
        },
    );
    id.push(
        match side {
            Side::Buy => 'B',
            Side::Sell => 'S',
        },
    );
    assert(id@ == id_mark() + seq![pos_side_letter(pos_side), side_letter(side)]);
    if k < 0 {
        id.push('M');
        let magnitude: i32 = -k;
        id.append(radix_text(magnitude as u128, 10).as_str());
    } else {
        id.append(radix_text(k as u128, 10).as_str());
    }
    assert(id@ == slot_text(pos_side, side, k as int));
    id.push('R');
    assert(id@ == slot_text(pos_side, side, k as int) + seq!['R']);
    id.append(radix_text(word as u128, 16).as_str());
    id.append(radix_text(count as u128, 16).as_str());
    let whole = chars_of(id.as_str());
    let kept: usize = if whole.len() < 32 {
        whole.len()
    } else {
        32
    };
    assert(whole@.take(kept as int) == whole@.subrange(0, kept as int));
    text_between(whole.as_slice(), 0, kept)
}

/// Writes a client order id for a slot: the slot, a random word and the count of ids
/// made so far.
pub fn format_cl_ord_id(
    counter: &mut OrderCounter,
    pos_side: PosSide,
    side: Side,
    k: i32,
) -> (id: String)
    requires
        k > i32::MIN,
    ensures
        exists|word: u64| id@ == #[trigger] id_text(pos_side, side, k as int, word, old(counter)@),
        slot_of(id@) == Some((pos_side, side, k)),
        final(counter)@ == next_count(old(counter)@),
{
    let count = counter.fetch_next();
    let word = random_word();
    proof {
        law_id_names_its_slot(pos_side, side, k, word, count);
    }
    compose_cl_ord_id(pos_side, side, k, word, count)
}

/// Reads the slot that a client order id names.
///
/// The magnitude `-2147483648` behind an `M` has no opposite among the `i32`s; it
/// stands for itself.
pub fn parse_cl_ord_id(id: &str) -> (slot: Option<(PosSide, Side, i32)>)
    ensures
        slot == slot_of(id@),
{
    let x = chars_of(id);
    if x.len() < 3 || x[0] != 'N' || x[1] != 'G' || x[2] != 'B' {
        assert(id_mark().is_prefix_of(id@) ==> id@[0] == id_mark()[0] && id@[1] == id_mark()[1]
            && id@[2] == id_mark()[2]);
        return None;
    }
    assert(id@.subrange(0, 3) == id_mark());
    let r = find_char(x.as_slice(), 0, 'R');
    assert(id@.skip(0) == id@);
    if r == x.len() || r < 5 {
        return None;
    }
    let pos_side = match x[3] {
        'L' => PosSide::Long,
        'S' => PosSide::Short,
        _ => { return None; },
    };
    let side = match x[4] {
        'B' => Side::Buy,
        'S' => Side::Sell,
        _ => { return None; },
    };
    let logic = chars_of(text_between(x.as_slice(), 0, r).as_str());
    assert(logic@.skip(5) == id@.subrange(5, r as int));
    assert(r > 5 ==> logic@.skip(5).skip(1) == logic@.skip(6));
    let k: i32 = if r > 5 && logic[5] == 'M' {
        match read_i32(logic.as_slice(), 6) {
            Some(v) => if v == i32::MIN {
                v
            } else {
                -v
            },
            None => { return None; },
        }
    } else {
        match read_i32(logic.as_slice(), 5) {
            Some(v) => v,
            None => { return None; },
        }
    };
    Some((pos_side, side, k))
}

/// A client order id names the slot it was written for, whatever the random word and
/// the count.
pub proof fn law_id_names_its_slot(
    pos_side: PosSide,
    side: Side,
    k: i32,
    word: u64,
    count: usize,
)
    requires
        k > i32::MIN,
    ensures
        slot_of(id_text(pos_side, side, k as int, word, count)) == Some((pos_side, side, k)),
        id_text(pos_side, side, k as int, word, count).len() <= id_limit(),
{
    let n: nat = if k < 0 {
        (-k) as nat
    } else {
        k as nat
    };
    assert(ten_to(10) == 10_000_000_000) by {
        reveal_with_fuel(ten_to, 11);
    }
    lemma_radix_ten(n, 10);
    let digits = radix(n, 10);
    let slot = slot_text(pos_side, side, k as int);
    let id = id_text(pos_side, side, k as int, word, count);
    let whole = slot + seq!['R'] + radix(word as nat, 16) + radix(
        count as nat,
        16,
    );
    assert(slot.len() <= 16);
    assert(whole[slot.len() as int] == 'R');
    assert forall|j: int| 0 <= j < slot.len() implies id[j] == slot[j] && slot[j] != 'R' by {
        assert(id[j] == whole[j]);
        if j >= 5 {
            let level = level_text(k as int);
            assert(slot[j] == level[j - 5]);
            if k < 0 {
                if j > 5 {
                    assert(level[j - 5] == digits[j - 6]);
                    assert(is_digit(digits[j - 6]));
                }
            } else {
                assert(is_digit(digits[j - 5]));
            }
        }
    }
    lemma_first_position(id, 'R');
    let r = first_position(id, 'R') as int;
    assert(id[slot.len() as int] == 'R');
    assert(r == slot.len());
    assert(id.subrange(5, r) == level_text(k as int));
    assert(id.subrange(0, 3) == id_mark());
    if k < 0 {
        assert(level_text(k as int).skip(1) == digits);
    }
    assert(is_digit(digits[0]));
}

/// How a client order id reads: `NGB`, then `L` for the long side and `S` for the short
/// one, `B` for a purchase and `S` for a sale, `M` where the level is below zero, the
/// level in digits, `R`, and then the word and the count in hexadecimal, as far as 32
/// characters go.
pub proof fn law_how_an_id_reads(
    pos_side: PosSide,
    side: Side,
    k: i32,
    word: u64,
    count: usize,
)
    requires
        k > i32::MIN,
    ensures
        ({
            let id = id_text(pos_side, side, k as int, word, count);
            let r = first_position(id, 'R') as int;
            let from: int = if k < 0 {
                6
            } else {
                5
            };
            let tail = radix(word as nat, 16) + radix(count as nat, 16);
            &&& 6 <= r < id.len() <= 32
            &&& id[0] == 'N' && id[1] == 'G' && id[2] == 'B'
            &&& id[3] == 'L' <==> pos_side == PosSide::Long
            &&& id[3] == 'S' <==> pos_side == PosSide::Short
            &&& id[4] == 'B' <==> side == Side::Buy
            &&& id[4] == 'S' <==> side == Side::Sell
            &&& id[5] == 'M' <==> k < 0
            &&& forall|i: int| from <= i < r ==> '0' <= #[trigger] id[i] <= '9'
            &&& k < 0 ==> digits_value(id.subrange(6, r)) == -k
            &&& k >= 0 ==> digits_value(id.subrange(5, r)) == k
            &&& id.skip(r + 1).is_prefix_of(tail)
            &&& id.len() < 32 ==> id.skip(r + 1) == tail
        }),
{
    let slot = slot_text(pos_side, side, k as int);
    let id = id_text(pos_side, side, k as int, word, count);
    let tail = radix(word as nat, 16) + radix(count as nat, 16);
    let whole = slot + seq!['R'] + tail;
    assert(slot + seq!['R'] + radix(word as nat, 16) + radix(count as nat, 16) == whole);
    lemma_slot_text(pos_side, side, k);
    assert(id == whole.take(id.len() as int));
    assert(whole[slot.len() as int] == 'R');
    assert forall|j: int| 0 <= j < slot.len() implies id[j] == slot[j] by {
        assert(id[j] == whole[j]);
    }
    assert(id[slot.len() as int] == whole[slot.len() as int]);
    lemma_first_position(id, 'R');
    let r = first_position(id, 'R') as int;
    assert(r == slot.len());
    if k < 0 {
        assert(id.subrange(6, r) == slot.subrange(6, slot.len() as int));
    } else {
        assert(id.subrange(5, r) == slot.subrange(5, slot.len() as int));
    }
    assert(id.skip(r + 1) == tail.subrange(0, id.len() - r - 1));
    if id.len() < 32 {
        assert(tail.subrange(0, tail.len() as int) == tail);
    }
}

/// How the part of an id that names the slot reads.
proof fn lemma_slot_text(pos_side: PosSide, side: Side, k: i32)
    requires
        k > i32::MIN,
    ensures
        ({
            let slot = slot_text(pos_side, side, k as int);
            let from: int = if k < 0 {
                6
            } else {
                5
            };
            &&& 6 <= slot.len() <= 16
            &&& slot[0] == 'N' && slot[1] == 'G' && slot[2] == 'B'
            &&& slot[3] == pos_side_letter(pos_side)
            &&& slot[4] == side_letter(side)
            &&& slot[5] == 'M' <==> k < 0
            &&& forall|j: int| 0 <= j < slot.len() ==> #[trigger] slot[j] != 'R'
            &&& forall|j: int| from <= j < slot.len() ==> '0' <= #[trigger] slot[j] <= '9'
            &&& digits_value(slot.subrange(from, slot.len() as int)) == if k < 0 {
                -k
            } else {
                k as int
            }
        }),
{
    let n: nat = if k < 0 {
        (-k) as nat
    } else {
        k as nat
    };
    let from: int = if k < 0 {
        6
    } else {
        5
    };
    assert(ten_to(10) == 10_000_000_000) by {
        reveal_with_fuel(ten_to, 11);
    }
    lemma_radix_ten(n, 10);
    let digits = radix(n, 10);
    let slot = slot_text(pos_side, side, k as int);
    assert(is_digit(digits[0]));
    assert(slot.subrange(from, slot.len() as int) == digits);
    assert(slot[from] == digits[0]);
    assert forall|j: int| from <= j < slot.len() implies '0' <= #[trigger] slot[j] <= '9' by {
        assert(slot[j] == digits[j - from]);
        assert(is_digit(digits[j - from]));
    }
    assert forall|j: int| 0 <= j < slot.len() implies #[trigger] slot[j] != 'R' by {}
}

/// Which slot a client order id names: one with the marks of a side and of a direction,
/// and up to the first `R` a level in digits, with `M` before them where it is below zero;
/// and an id that begins otherwise names none.
pub proof fn law_slot_of_an_id(id: Seq<char>)
    ensures
        slot_of(id) matches Some((pos_side, side, k)) ==> {
            &&& id.len() >= 6
            &&& id[0] == 'N' && id[1] == 'G' && id[2] == 'B'
            &&& id[3] == 'L' <==> pos_side == PosSide::Long
            &&& id[3] == 'S' <==> pos_side == PosSide::Short
            &&& id[4] == 'B' <==> side == Side::Buy
            &&& id[4] == 'S' <==> side == Side::Sell
            &&& first_position(id, 'R') < id.len()
        },
        ({
            let r = first_position(id, 'R') as int;
            let pos_side = if id[3] == 'L' {
                PosSide::Long
            } else {
                PosSide::Short
            };
            let side = if id[4] == 'B' {
                Side::Buy
            } else {
                Side::Sell
            };
            let up = digits_value(id.subrange(5, r));
            let down = digits_value(id.subrange(6, r));
            let marked = id.len() > r >= 6 && id[0] == 'N' && id[1] == 'G' && id[2] == 'B' && (
            id[3] == 'L' || id[3] == 'S') && (id[4] == 'B' || id[4] == 'S');
            &&& marked && (forall|i: int| 5 <= i < r ==> '0' <= #[trigger] id[i] <= '9') && up
                <= 2_147_483_647 ==> slot_of(id) == Some((pos_side, side, up as i32))
            &&& marked && r >= 7 && id[5] == 'M' && (forall|i: int|
                6 <= i < r ==> '0' <= #[trigger] id[i] <= '9') && down <= 2_147_483_647
                ==> slot_of(id) == Some((pos_side, side, (-down) as i32))
        }),
{
    let r = first_position(id, 'R') as int;
    lemma_first_position(id, 'R');
    if id_mark().is_prefix_of(id) {
        assert(id_mark()[0] == id[0] && id_mark()[1] == id[1] && id_mark()[2] == id[2]);
    }
    if id.len() >= 3 && id[0] == 'N' && id[1] == 'G' && id[2] == 'B' {
        assert(id_mark() =~= id.subrange(0, 3));
    }
    if 5 <= r < id.len() {
        let level = id.subrange(5, r);
        if r == 5 {
            assert(level.len() == 0);
            assert(i32_of(level) is None);
        }
        if r >= 6 && forall|i: int| 5 <= i < r ==> '0' <= #[trigger] id[i] <= '9' {
            assert forall|i: int| 0 <= i < level.len() implies is_digit(#[trigger] level[i]) by {
                assert(level[i] == id[5 + i]);
            }
            assert(level[0] == id[5]);
        }
        if r >= 7 && id[5] == 'M' && forall|i: int| 6 <= i < r ==> '0' <= #[trigger] id[i] <= '9' {
            let digits = id.subrange(6, r);
            assert(level.skip(1) =~= digits);
            assert forall|i: int| 0 <= i < digits.len() implies is_digit(#[trigger] digits[i]) by {
                assert(digits[i] == id[6 + i]);
            }
            assert(digits[0] == id[6]);
            assert(level[0] == id[5]);
        }
    }
}

}
