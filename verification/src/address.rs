//! Addresses: the identity of a node among its siblings, and paths of them.

use vstd::prelude::*;

verus! {

/// The mathematical value of a [`JsonPointer`].
pub enum Address {
    /// A named field of an object.
    Key(Seq<char>),
    /// A slot of an array.
    Index(nat),
    /// The document itself, where it is a scalar.
    Root,
}

/// A path: the addresses from the top of the document down to a node.
pub type Path = Seq<Address>;

/// The identity of a node relative to its parent.
#[derive(Debug, Hash)]
pub enum JsonPointer {
    /// Reached through a named field of the parent object.
    ObjectKey(String),
    /// Reached through a positional slot of the parent array.
    ArrayIndex(usize),
    /// The whole document, when it is a scalar.
    Root,
}

impl View for JsonPointer {
    type V = Address;

    open spec fn view(&self) -> Address {
        match self {
            JsonPointer::ObjectKey(key) => Address::Key(key@),
            JsonPointer::ArrayIndex(index) => Address::Index(*index as nat),
            JsonPointer::Root => Address::Root,
        }
    }
}

impl Default for JsonPointer {
    fn default() -> (pointer: JsonPointer)
        ensures
            pointer@ == Address::Root,
    {
        JsonPointer::Root
    }
}

impl Clone for JsonPointer {
    fn clone(&self) -> (copy: JsonPointer)
        ensures
            copy@ == self@,
    {
        match self {
            JsonPointer::ObjectKey(key) => JsonPointer::ObjectKey(key.clone()),
            JsonPointer::ArrayIndex(index) => JsonPointer::ArrayIndex(*index),
            JsonPointer::Root => JsonPointer::Root,
        }
    }
}

impl PartialEq for JsonPointer {
    fn eq(&self, other: &JsonPointer) -> (equal: bool) {
        match (self, other) {
            (JsonPointer::ObjectKey(a), JsonPointer::ObjectKey(b)) => *a == *b,
            (JsonPointer::ArrayIndex(a), JsonPointer::ArrayIndex(b)) => *a == *b,
            (JsonPointer::Root, JsonPointer::Root) => true,
            _ => false,
        }
    }
}

impl vstd::std_specs::cmp::PartialEqSpecImpl for JsonPointer {
    open spec fn obeys_eq_spec() -> bool {
        true
    }

    open spec fn eq_spec(&self, other: &JsonPointer) -> bool {
        self@ == other@
    }
}

impl Eq for JsonPointer {

}

/// The character that writes the digit `d`.
pub open spec fn digit_char(d: nat) -> char
    recommends
        d < 10,
{
    if d == 0 {
        '0'
    } else if d == 1 {
        '1'
    } else if d == 2 {
        '2'
    } else if d == 3 {
        '3'
    } else if d == 4 {
        '4'
    } else if d == 5 {
        '5'
    } else if d == 6 {
        '6'
    } else if d == 7 {
        '7'
    } else if d == 8 {
        '8'
    } else {
        '9'
    }
}

/// The decimal numeral of `n`, without leading zeros.
pub open spec fn decimal(n: nat) -> Seq<char>
    decreases n,
{
    if n < 10 {
        seq![digit_char(n)]
    } else {
        decimal(n / 10).push(digit_char(n % 10))
    }
}

/// The text that stands for an address in a label: the key itself, the
/// index in decimal, nothing for the root.
pub open spec fn address_text(address: Address) -> Seq<char> {
    match address {
        Address::Key(key) => key,
        Address::Index(index) => decimal(index),
        Address::Root => Seq::empty(),
    }
}

/// The view of a sequence of pointers.
pub open spec fn path_of(pointers: Seq<JsonPointer>) -> Path {
    pointers.map_values(|pointer: JsonPointer| pointer@)
}

fn digit_text(d: usize) -> (text: &'static str)
    requires
        d < 10,
    ensures
        text@ == seq![digit_char(d as nat)],
{
    proof {
        reveal_strlit("0");
        reveal_strlit("1");
        reveal_strlit("2");
        reveal_strlit("3");
        reveal_strlit("4");
        reveal_strlit("5");
        reveal_strlit("6");
        reveal_strlit("7");
        reveal_strlit("8");
        reveal_strlit("9");
    }
    let text = match d {
        0 => "0",
        1 => "1",
        2 => "2",
        3 => "3",
        4 => "4",
        5 => "5",
        6 => "6",
        7 => "7",
        8 => "8",
        _ => "9",
    };
    assert(text@ =~= seq![digit_char(d as nat)]);
    text
}

fn append_decimal(n: usize, out: &mut String)
    ensures
        final(out)@ == old(out)@ + decimal(n as nat),
    decreases n,
{
    if n >= 10 {
        append_decimal(n / 10, out);
    }
    out.append(digit_text(n % 10));
    assert(final(out)@ =~= old(out)@ + decimal(n as nat));
}

impl JsonPointer {
    /// The text that stands for this pointer in a label.
    pub fn to_string(&self) -> (text: String)
        ensures
            text@ == address_text(self@),
    {
        match self {
            JsonPointer::ObjectKey(key) => key.clone(),
            JsonPointer::ArrayIndex(index) => {
                let mut text = String::new();
                append_decimal(*index, &mut text);
                assert(text@ =~= decimal(*index as nat));
                text
            },
            JsonPointer::Root => String::new(),
        }
    }
}

/// A copy of a path.
pub fn copy_path(path: &Vec<JsonPointer>) -> (copy: Vec<JsonPointer>)
    ensures
        path_of(copy@) == path_of(path@),
{
    let mut copy: Vec<JsonPointer> = Vec::new();
    let mut i: usize = 0;
    while i < path.len()
        invariant
            i <= path.len(),
            copy.len() == i,
            forall|k: int| 0 <= k < i ==> copy@[k]@ == path@[k]@,
        decreases path.len() - i,
    {
        copy.push(path[i].clone());
        i += 1;
    }
    assert(path_of(copy@) =~= path_of(path@));
    copy
}

/// Whether two paths are the same path.
pub fn same_path(a: &Vec<JsonPointer>, b: &Vec<JsonPointer>) -> (same: bool)
    ensures
        same == (path_of(a@) == path_of(b@)),
{
    if a.len() != b.len() {
        assert(path_of(a@).len() != path_of(b@).len());
        return false;
    }
    let mut i: usize = 0;
    while i < a.len()
        invariant
            a.len() == b.len(),
            i <= a.len(),
            forall|k: int| 0 <= k < i ==> a@[k]@ == b@[k]@,
        decreases a.len() - i,
    {
        if a[i] != b[i] {
            assert(path_of(a@)[i as int] != path_of(b@)[i as int]);
            return false;
        }
        i += 1;
    }
    assert(path_of(a@) =~= path_of(b@));
    true
}

} // verus!
