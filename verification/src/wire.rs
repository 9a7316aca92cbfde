//! How deep the groups of an encoded model nest.
//!
//! A model is a tree of messages, and each message is a list of fields. ONNX
//! has no groups, but any message may hold some, as fields that nobody knows.
//! The parser skips them, one inside the other, as deep as they go.

use vstd::prelude::*;

verus! {

/// How deep groups may nest: far deeper than messages, but not deeper than a
/// small stack holds.
pub const GROUPS: u16 = 1000;

/// How deep the parser lets messages nest.
pub const LEVELS: u8 = 100;

/// The messages of an ONNX model, by the messages that they hold.
#[derive(Debug, Clone, Copy, PartialEq, Eq, Structural)]
pub enum Kind {
    Model,
    Graph,
    Node,
    Attribute,
    Training,
    Function,
    ValueInfo,
    Annotation,
    Tensor,
    SparseTensor,
    Type,
    /// The type of a tensor, sparse or not.
    TensorType,
    /// The type of a sequence or of an optional value.
    ElementType,
    MapType,
    Shape,
    /// Entries, segments, dimensions and operator sets hold no messages.
    Leaf,
}

/// The message that a field holds, if it holds one. Fields are known by their
/// tag: the number of the field times eight, plus two.
pub open spec fn part(kind: Kind, tag: nat) -> Option<Kind> {
    match kind {
        Kind::Model => if tag == 58 {
            Some(Kind::Graph)
        } else if tag == 162 {
            Some(Kind::Training)
        } else if tag == 202 {
            Some(Kind::Function)
        } else if tag == 66 || tag == 114 {
            Some(Kind::Leaf)
        } else {
            None
        },
        Kind::Graph => if tag == 10 {
            Some(Kind::Node)
        } else if tag == 42 {
            Some(Kind::Tensor)
        } else if tag == 122 {
            Some(Kind::SparseTensor)
        } else if tag == 90 || tag == 98 || tag == 106 {
            Some(Kind::ValueInfo)
        } else if tag == 114 {
            Some(Kind::Annotation)
        } else if tag == 130 {
            Some(Kind::Leaf)
        } else {
            None
        },
        Kind::Node => if tag == 42 {
            Some(Kind::Attribute)
        } else if tag == 74 {
            Some(Kind::Leaf)
        } else {
            None
        },
        Kind::Attribute => if tag == 42 || tag == 82 {
            Some(Kind::Tensor)
        } else if tag == 50 || tag == 90 {
            Some(Kind::Graph)
        } else if tag == 178 || tag == 186 {
            Some(Kind::SparseTensor)
        } else if tag == 114 || tag == 122 {
            Some(Kind::Type)
        } else {
            None
        },
        Kind::Training => if tag == 10 || tag == 18 {
            Some(Kind::Graph)
        } else if tag == 26 || tag == 34 {
            Some(Kind::Leaf)
        } else {
            None
        },
        Kind::Function => if tag == 58 {
            Some(Kind::Node)
        } else if tag == 90 {
            Some(Kind::Attribute)
        } else if tag == 98 {
            Some(Kind::ValueInfo)
        } else if tag == 74 || tag == 114 {
            Some(Kind::Leaf)
        } else {
            None
        },
        Kind::ValueInfo => if tag == 18 {
            Some(Kind::Type)
        } else if tag == 34 {
            Some(Kind::Leaf)
        } else {
            None
        },
        Kind::Annotation => if tag == 18 {
            Some(Kind::Leaf)
        } else {
            None
        },
        Kind::Tensor => if tag == 26 || tag == 106 || tag == 130 {
            Some(Kind::Leaf)
        } else {
            None
        },
        Kind::SparseTensor => if tag == 10 || tag == 18 {
            Some(Kind::Tensor)
        } else {
            None
        },
        Kind::Type => if tag == 10 || tag == 66 {
            Some(Kind::TensorType)
        } else if tag == 34 || tag == 74 {
            Some(Kind::ElementType)
        } else if tag == 42 {
            Some(Kind::MapType)
        } else {
            None
        },
        Kind::TensorType => if tag == 18 {
            Some(Kind::Shape)
        } else {
            None
        },
        Kind::ElementType => if tag == 10 {
            Some(Kind::Type)
        } else {
            None
        },
        Kind::MapType => if tag == 18 {
            Some(Kind::Type)
        } else {
            None
        },
        Kind::Shape => if tag == 10 {
            Some(Kind::Leaf)
        } else {
            None
        },
        Kind::Leaf => None,
    }
}

/// The number that some bytes begin with, and how many bytes it takes, `most`
/// at most. Each byte holds seven bits, the lowest first, and one that says
/// whether more follow.
pub open spec fn varint(bytes: Seq<u8>, most: nat) -> Option<(nat, nat)>
    decreases most,
{
    if most == 0 || bytes.len() == 0 {
        None
    } else if bytes[0] < 128 {
        Some((bytes[0] as nat, 1))
    } else {
        match varint(bytes.skip(1), (most - 1) as nat) {
            Some((high, used)) => Some(((bytes[0] - 128 + 128 * high) as nat, used + 1)),
            None => None,
        }
    }
}

/// A number of up to ten bytes: its value, and what follows it.
pub open spec fn number(bytes: Seq<u8>) -> Option<(nat, Seq<u8>)> {
    match varint(bytes, 10) {
        Some((value, used)) => Some((value, bytes.skip(used as int))),
        None => None,
    }
}

/// What follows a fixed number of bytes.
pub open spec fn past(bytes: Seq<u8>, count: int) -> Seq<u8> {
    bytes.skip(if count < bytes.len() {
        count
    } else {
        bytes.len() as int
    })
}

/// Whether no groups nest too deep in the rest of a message, which begins
/// inside `depth` groups. `levels` is how much deeper messages may still nest.
/// What cannot be parsed at all holds no groups.
pub open spec fn is_flat(kind: Kind, bytes: Seq<u8>, depth: nat, levels: nat) -> bool
    decreases bytes.len(),
{
    proof {
        lemma_number(bytes);
    }
    match number(bytes) {
        None => true,
        Some((tag, rest)) => {
            proof {
                lemma_number(rest);
            }
            if tag % 8 == 0 {
                match number(rest) {
                    Some((_, after)) => is_flat(kind, after, depth, levels),
                    None => true,
                }
            } else if tag % 8 == 1 {
                is_flat(kind, past(rest, 8), depth, levels)
            } else if tag % 8 == 2 {
                match number(rest) {
                    Some((length, data)) => {
                        let after = past(data, length as int);
                        let body = data.take(data.len() - after.len());
                        &&& is_flat(kind, after, depth, levels)
                        &&& depth == 0 && levels > 0 ==> match part(kind, tag) {
                            Some(inner) => is_flat(inner, body, 0, (levels - 1) as nat),
                            None => true,
                        }
                    },
                    None => true,
                }
            } else if tag % 8 == 3 {
                depth < GROUPS && is_flat(kind, rest, depth + 1, levels)
            } else if tag % 8 == 4 {
                depth == 0 || is_flat(kind, rest, (depth - 1) as nat, levels)
            } else if tag % 8 == 5 {
                is_flat(kind, past(rest, 4), depth, levels)
            } else {
                true
            }
        },
    }
}

pub proof fn lemma_varint(bytes: Seq<u8>, most: nat)
    ensures
        varint(bytes, most) matches Some((_, used)) ==> 1 <= used <= bytes.len(),
    decreases most,
{
    if most > 0 && bytes.len() > 0 {
        lemma_varint(bytes.skip(1), (most - 1) as nat);
    }
}

pub proof fn lemma_number(bytes: Seq<u8>)
    ensures
        number(bytes) matches Some((_, rest)) ==> rest.len() < bytes.len(),
{
    lemma_varint(bytes, 10);
}

fn find_part(kind: Kind, tag: u128) -> (inner: Option<Kind>)
    ensures
        inner == part(kind, tag as nat),
{
    match kind {
        Kind::Model => if tag == 58 {
            Some(Kind::Graph)
        } else if tag == 162 {
            Some(Kind::Training)
        } else if tag == 202 {
            Some(Kind::Function)
        } else if tag == 66 || tag == 114 {
            Some(Kind::Leaf)
        } else {
            None
        },
        Kind::Graph => if tag == 10 {
            Some(Kind::Node)
        } else if tag == 42 {
            Some(Kind::Tensor)
        } else if tag == 122 {
            Some(Kind::SparseTensor)
        } else if tag == 90 || tag == 98 || tag == 106 {
            Some(Kind::ValueInfo)
        } else if tag == 114 {
            Some(Kind::Annotation)
        } else if tag == 130 {
            Some(Kind::Leaf)
        } else {
            None
        },
        Kind::Node => if tag == 42 {
            Some(Kind::Attribute)
        } else if tag == 74 {
            Some(Kind::Leaf)
        } else {
            None
        },
        Kind::Attribute => if tag == 42 || tag == 82 {
            Some(Kind::Tensor)
        } else if tag == 50 || tag == 90 {
            Some(Kind::Graph)
        } else if tag == 178 || tag == 186 {
            Some(Kind::SparseTensor)
        } else if tag == 114 || tag == 122 {
            Some(Kind::Type)
        } else {
            None
        },
        Kind::Training => if tag == 10 || tag == 18 {
            Some(Kind::Graph)
        } else if tag == 26 || tag == 34 {
            Some(Kind::Leaf)
        } else {
            None
        },
        Kind::Function => if tag == 58 {
            Some(Kind::Node)
        } else if tag == 90 {
            Some(Kind::Attribute)
        } else if tag == 98 {
            Some(Kind::ValueInfo)
        } else if tag == 74 || tag == 114 {
            Some(Kind::Leaf)
        } else {
            None
        },
        Kind::ValueInfo => if tag == 18 {
            Some(Kind::Type)
        } else if tag == 34 {
            Some(Kind::Leaf)
        } else {
            None
        },
        Kind::Annotation => if tag == 18 {
            Some(Kind::Leaf)
        } else {
            None
        },
        Kind::Tensor => if tag == 26 || tag == 106 || tag == 130 {
            Some(Kind::Leaf)
        } else {
            None
        },
        Kind::SparseTensor => if tag == 10 || tag == 18 {
            Some(Kind::Tensor)
        } else {
            None
        },
        Kind::Type => if tag == 10 || tag == 66 {
            Some(Kind::TensorType)
        } else if tag == 34 || tag == 74 {
            Some(Kind::ElementType)
        } else if tag == 42 {
            Some(Kind::MapType)
        } else {
            None
        },
        Kind::TensorType => if tag == 18 {
            Some(Kind::Shape)
        } else {
            None
        },
        Kind::ElementType => if tag == 10 {
            Some(Kind::Type)
        } else {
            None
        },
        Kind::MapType => if tag == 18 {
            Some(Kind::Type)
        } else {
            None
        },
        Kind::Shape => if tag == 10 {
            Some(Kind::Leaf)
        } else {
            None
        },
        Kind::Leaf => None,
    }
}


/// The first number that `most` groups of seven bits do not hold.
spec fn bound(most: nat) -> nat
    decreases most,
{
    if most == 0 {
        1
    } else {
        128 * bound((most - 1) as nat)
    }
}

proof fn lemma_bound(most: nat)
    requires
        most <= 10,
    ensures
        bound(most) <= 0x40_0000_0000_0000_0000,
{
    reveal_with_fuel(bound, 11);
}

fn read_varint(bytes: &[u8], from: usize, end: usize, most: u8) -> (result: Option<(u128, usize)>)
    requires
        from <= end <= bytes@.len(),
        most <= 10,
    ensures
        match (result, varint(bytes@.subrange(from as int, end as int), most as nat)) {
            (Some((v, n)), Some((value, used))) => v == value && n == used && v < bound(
                most as nat,
            ),
            (None, None) => true,
            _ => false,
        },
    decreases most,
{
    if most == 0 || from == end {
        return None;
    }
    let ghost here = bytes@.subrange(from as int, end as int);
    proof {
        lemma_bound(most as nat);
        lemma_varint(here, most as nat);
        assert(bound(most as nat) == 128 * bound((most - 1) as nat));
        lemma_positive((most - 1) as nat);
        assert(here.skip(1) =~= bytes@.subrange(from + 1, end as int));
    }
    let b = bytes[from];
    if b < 128 {
        return Some((b as u128, 1));
    }
    match read_varint(bytes, from + 1, end, most - 1) {
        Some((high, used)) => Some(((b - 128) as u128 + 128 * high, used + 1)),
        None => None,
    }
}

proof fn lemma_positive(most: nat)
    ensures
        bound(most) >= 1,
    decreases most,
{
    if most > 0 {
        lemma_positive((most - 1) as nat);
    }
}

/// Reads a number, and says where what follows it begins.
fn read_number(bytes: &[u8], from: usize, end: usize) -> (result: Option<(u128, usize)>)
    requires
        from <= end <= bytes@.len(),
    ensures
        match (result, number(bytes@.subrange(from as int, end as int))) {
            (Some((v, next)), Some((value, rest))) => v == value && from < next <= end && rest
                == bytes@.subrange(next as int, end as int),
            (None, None) => true,
            _ => false,
        },
{
    let ghost here = bytes@.subrange(from as int, end as int);
    proof {
        lemma_varint(here, 10);
    }
    match read_varint(bytes, from, end, 10) {
        Some((v, used)) => {
            assert(here.skip(used as int) =~= bytes@.subrange(from + used, end as int));
            Some((v, from + used))
        },
        None => None,
    }
}

/// Where what follows a number of bytes begins.
fn jump(bytes: &[u8], from: usize, end: usize, count: u128) -> (next: usize)
    requires
        from <= end <= bytes@.len(),
    ensures
        from <= next <= end,
        bytes@.subrange(next as int, end as int) == past(
            bytes@.subrange(from as int, end as int),
            count as int,
        ),
{
    let ghost here = bytes@.subrange(from as int, end as int);
    let next = if count < (end - from) as u128 {
        from + count as usize
    } else {
        end
    };
    assert(bytes@.subrange(next as int, end as int) =~= past(here, count as int));
    next
}

/// Whether no groups nest too deep in the message `bytes[from..end]`.
fn scan(bytes: &[u8], kind: Kind, from: usize, end: usize, levels: u8) -> (flat: bool)
    requires
        from <= end <= bytes@.len(),
    ensures
        flat == is_flat(kind, bytes@.subrange(from as int, end as int), 0, levels as nat),
    decreases levels,
{
    let mut i = from;
    let mut depth: u16 = 0;
    loop
        invariant
            from <= i <= end <= bytes@.len(),
            depth <= GROUPS,
            is_flat(kind, bytes@.subrange(from as int, end as int), 0, levels as nat) == is_flat(
                kind,
                bytes@.subrange(i as int, end as int),
                depth as nat,
                levels as nat,
            ),
        decreases end - i,
    {
        let (tag, rest) = match read_number(bytes, i, end) {
            Some(found) => found,
            None => return true,
        };
        let wire = tag % 8;
        if wire == 0 {
            match read_number(bytes, rest, end) {
                Some((_, after)) => {
                    i = after;
                },
                None => return true,
            }
        } else if wire == 1 {
            i = jump(bytes, rest, end, 8);
        } else if wire == 2 {
            let (length, data) = match read_number(bytes, rest, end) {
                Some(found) => found,
                None => return true,
            };
            let after = jump(bytes, data, end, length);
            if depth == 0 && levels > 0 {
                if let Some(inner) = find_part(kind, tag) {
                    let ghost field = bytes@.subrange(data as int, end as int);
                    assert(field.take(after - data) =~= bytes@.subrange(
                        data as int,
                        after as int,
                    ));
                    if !scan(bytes, inner, data, after, levels - 1) {
                        return false;
                    }
                }
            }
            i = after;
        } else if wire == 3 {
            if depth >= GROUPS {
                return false;
            }
            depth = depth + 1;
            i = rest;
        } else if wire == 4 {
            if depth == 0 {
                return true;
            }
            depth = depth - 1;
            i = rest;
        } else if wire == 5 {
            i = jump(bytes, rest, end, 4);
        } else {
            return true;
        }
    }
}

/// Whether no groups nest too deep in an encoded model.
pub open spec fn is_shallow(bytes: Seq<u8>) -> bool {
    is_flat(Kind::Model, bytes, 0, LEVELS as nat)
}

/// Looks for groups that nest too deep.
pub fn check_groups(bytes: &[u8]) -> (shallow: bool)
    ensures
        shallow == is_shallow(bytes@),
        shallow == is_flat(Kind::Model, bytes@, 0, 100),
{
    assert(bytes@.subrange(0, bytes@.len() as int) =~= bytes@);
    scan(bytes, Kind::Model, 0, bytes.len(), LEVELS)
}

/// Bytes that begin with a thousand and one group starts are never accepted,
/// whatever follows. Nothing but group starts is accepted up to a thousand.
pub proof fn law_groups_are_counted(bytes: Seq<u8>, starts: int)
    requires
        0 <= starts <= bytes.len(),
        forall|i: int| 0 <= i < starts ==> #[trigger] bytes[i] == 11,
    ensures
        starts > 1000 ==> !is_shallow(bytes),
        starts == bytes.len() && starts <= 1000 ==> is_shallow(bytes),
{
    lemma_starts(Kind::Model, bytes, starts, 0, LEVELS as nat);
}

proof fn lemma_starts(kind: Kind, bytes: Seq<u8>, starts: int, depth: nat, levels: nat)
    requires
        0 <= starts <= bytes.len(),
        forall|i: int| 0 <= i < starts ==> #[trigger] bytes[i] == 11,
    ensures
        depth + starts > 1000 && depth <= 1000 ==> !is_flat(kind, bytes, depth, levels),
        starts == bytes.len() && depth + starts <= 1000 ==> is_flat(kind, bytes, depth, levels),
    decreases starts,
{
    if starts > 0 {
        assert(bytes[0] == 11);
        assert(number(bytes) == Some((11nat, bytes.skip(1))));
        let rest = bytes.skip(1);
        assert forall|i: int| 0 <= i < starts - 1 implies #[trigger] rest[i] == 11 by {
            assert(rest[i] == bytes[i + 1]);
        }
        if depth < 1000 {
            lemma_starts(kind, rest, starts - 1, depth + 1, levels);
        }
    }
}

/// What is not longer than a thousand bytes is never refused: every group takes
/// a byte to begin.
pub proof fn law_short_models_are_shallow(bytes: Seq<u8>)
    requires
        bytes.len() <= 1000,
    ensures
        is_shallow(bytes),
{
    lemma_short(Kind::Model, bytes, 0, LEVELS as nat);
}

proof fn lemma_short(kind: Kind, bytes: Seq<u8>, depth: nat, levels: nat)
    requires
        depth + bytes.len() <= 1000,
    ensures
        is_flat(kind, bytes, depth, levels),
    decreases bytes.len(),
{
    lemma_number(bytes);
    if let Some((tag, rest)) = number(bytes) {
        lemma_number(rest);
        if tag % 8 == 0 {
            if let Some((_, after)) = number(rest) {
                lemma_short(kind, after, depth, levels);
            }
        } else if tag % 8 == 1 {
            lemma_short(kind, past(rest, 8), depth, levels);
        } else if tag % 8 == 2 {
            if let Some((length, data)) = number(rest) {
                let after = past(data, length as int);
                let body = data.take(data.len() - after.len());
                lemma_short(kind, after, depth, levels);
                if depth == 0 && levels > 0 {
                    if let Some(inner) = part(kind, tag) {
                        lemma_short(inner, body, 0, (levels - 1) as nat);
                    }
                }
            }
        } else if tag % 8 == 3 {
            lemma_short(kind, rest, depth + 1, levels);
        } else if tag % 8 == 4 {
            if depth > 0 {
                lemma_short(kind, rest, (depth - 1) as nat, levels);
            }
        } else if tag % 8 == 5 {
            lemma_short(kind, past(rest, 4), depth, levels);
        }
    }
}

} // verus!
