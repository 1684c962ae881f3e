use vstd::prelude::*;

verus! {

/// The name that stands for the empty derivation; no declared symbol may use it.
pub open spec fn reserved_name() -> Seq<char> {
    "Empty"@
}

/// Tells whether `name` is the reserved name of the empty derivation.
pub fn is_reserved(name: &String) -> (r: bool)
    ensures
        r == (name@ == reserved_name()),
{
    let reserved = "Empty".to_owned();
    *name == reserved
}

/// Dense identity of a symbol; identities are handed out from 0 upwards.
#[derive(Clone, Copy, PartialEq, Eq, Structural, Hash, Debug)]
pub struct SymbolId {
    pub id: usize,
}

impl SymbolId {
    pub fn first() -> (r: SymbolId)
        ensures
            r.id == 0,
    {
        SymbolId { id: 0 }
    }

    pub fn increment(&mut self)
        requires
            old(self).id < usize::MAX,
        ensures
            final(self).id == old(self).id + 1,
    {
        self.id = self.id + 1;
    }
}

/// The class of a symbol.
#[derive(Clone, Copy, PartialEq, Eq, Structural, Hash, Debug)]
pub enum SymbolType {
    NonTerminal,
    Terminal,
    Empty,
}

impl SymbolType {
    pub open spec fn spec_index(self) -> int {
        match self {
            SymbolType::NonTerminal => 0,
            SymbolType::Terminal => 1,
            SymbolType::Empty => 2,
        }
    }

    /// Position of the class among the per-class sets of a table.
    pub fn index(self) -> (r: usize)
        ensures
            r == self.spec_index(),
    {
        match self {
            SymbolType::NonTerminal => 0,
            SymbolType::Terminal => 1,
            SymbolType::Empty => 2,
        }
    }
}

/// Identities of the symbols of class `ty`, in increasing order.
pub open spec fn class_ids(s: Seq<(Seq<char>, SymbolType)>, ty: SymbolType) -> Seq<SymbolId>
    decreases s.len(),
{
    if s.len() == 0 {
        Seq::empty()
    } else {
        class_ids(s.drop_last(), ty) + if s.last().1 == ty {
            seq![SymbolId { id: (s.len() - 1) as usize }]
        } else {
            Seq::empty()
        }
    }
}

/// The names in a table of symbols are pairwise distinct.
pub open spec fn names_distinct(s: Seq<(Seq<char>, SymbolType)>) -> bool {
    forall|i: int, j: int| 0 <= i < j < s.len() ==> s[i].0 != s[j].0
}

/// Whether `name` is the name of some symbol of the table.
pub open spec fn has_name(s: Seq<(Seq<char>, SymbolType)>, name: Seq<char>) -> bool {
    exists|i: int| 0 <= i < s.len() && s[i].0 == name
}

/// First index of `name` in `symbols`, or `None`.
fn find_name(symbols: &Vec<(String, SymbolType)>, name: &String) -> (r: Option<usize>)
    ensures
        match r {
            Some(i) => i < symbols@.len() && symbols@[i as int].0@ == name@ && forall|j: int|
                0 <= j < i ==> symbols@[j].0@ != name@,
            None => forall|j: int| 0 <= j < symbols@.len() ==> symbols@[j].0@ != name@,
        },
{
    let mut i: usize = 0;
    while i < symbols.len()
        invariant
            i <= symbols@.len(),
            forall|j: int| 0 <= j < i ==> symbols@[j].0@ != name@,
        decreases symbols@.len() - i,
    {
        if symbols[i].0 == *name {
            return Some(i);
        }
        i = i + 1;
    }
    None
}

/// A table of symbols under construction: the symbol with identity `k` is the
/// `k`-th one inserted.
pub struct RawTypedAlphabet {
    symbols: Vec<(String, SymbolType)>,
}

impl View for RawTypedAlphabet {
    type V = Seq<(Seq<char>, SymbolType)>;

    closed spec fn view(&self) -> Seq<(Seq<char>, SymbolType)> {
        self.symbols@.map_values(|p: (String, SymbolType)| (p.0@, p.1))
    }
}

impl RawTypedAlphabet {
    pub fn new() -> (r: RawTypedAlphabet)
        ensures
            r@ == Seq::<(Seq<char>, SymbolType)>::empty(),
    {
        RawTypedAlphabet { symbols: Vec::new() }
    }

    /// Registers `sym_name` under the next identity.
    pub fn insert(&mut self, sym_name: String, sym_type: SymbolType) -> (r: SymbolId)
        requires
            old(self)@.len() < usize::MAX,
        ensures
            final(self)@ == old(self)@.push((sym_name@, sym_type)),
            r.id == old(self)@.len(),
    {
        let r = SymbolId { id: self.symbols.len() };
        self.symbols.push((sym_name, sym_type));
        proof {
            assert(self@ =~= old(self)@.push((sym_name@, sym_type)));
        }
        r
    }

    /// The identity and class under which `name` was first registered.
    pub fn lookup(&self, name: &String) -> (r: Option<(SymbolId, SymbolType)>)
        ensures
            match r {
                Some((id, ty)) => id.id < self@.len() && self@[id.id as int] == (name@, ty)
                    && forall|j: int| 0 <= j < id.id ==> self@[j].0 != name@,
                None => !has_name(self@, name@),
            },
    {
        match find_name(&self.symbols, name) {
            Some(i) => Some((SymbolId { id: i }, self.symbols[i].1)),
            None => {
                proof {
                    assert forall|j: int| 0 <= j < self@.len() implies self@[j].0 != name@ by {
                        assert(self.symbols@[j].0@ != name@);
                    }
                }
                None
            },
        }
    }

    /// Freezes the table, gathering the identities of each class in one pass.
    pub fn finalize(self) -> (r: TypedAlphabet)
        requires
            names_distinct(self@),
        ensures
            r@ == self@,
            r.wf(),
    {
        let ghost sv = self@;
        let mut non_terminals: Vec<SymbolId> = Vec::new();
        let mut terminals: Vec<SymbolId> = Vec::new();
        let mut empties: Vec<SymbolId> = Vec::new();
        let mut i: usize = 0;
        while i < self.symbols.len()
            invariant
                i <= sv.len(),
                sv == self@,
                non_terminals@ == class_ids(sv.take(i as int), SymbolType::NonTerminal),
                terminals@ == class_ids(sv.take(i as int), SymbolType::Terminal),
                empties@ == class_ids(sv.take(i as int), SymbolType::Empty),
            decreases sv.len() - i,
        {
            let ghost pre = sv.take(i as int);
            let ghost cur = sv.take(i + 1);
            assert(cur.drop_last() =~= pre);
            assert(cur.last() == sv[i as int]);
            assert(sv[i as int].1 == self.symbols@[i as int].1);
            let id = SymbolId { id: i };
            match self.symbols[i].1 {
                SymbolType::NonTerminal => non_terminals.push(id),
                SymbolType::Terminal => terminals.push(id),
                SymbolType::Empty => empties.push(id),
            }
            assert(non_terminals@ =~= class_ids(cur, SymbolType::NonTerminal));
            assert(terminals@ =~= class_ids(cur, SymbolType::Terminal));
            assert(empties@ =~= class_ids(cur, SymbolType::Empty));
            i = i + 1;
        }
        assert(sv.take(sv.len() as int) =~= sv);
        let type_sets = vec![non_terminals, terminals, empties];
        TypedAlphabet { symbols: self.symbols, type_sets }
    }
}

/// A finished table of symbols, looked up by identity or by name.
pub struct TypedAlphabet {
    symbols: Vec<(String, SymbolType)>,
    type_sets: Vec<Vec<SymbolId>>,
}

impl View for TypedAlphabet {
    type V = Seq<(Seq<char>, SymbolType)>;

    closed spec fn view(&self) -> Seq<(Seq<char>, SymbolType)> {
        self.symbols@.map_values(|p: (String, SymbolType)| (p.0@, p.1))
    }
}

impl TypedAlphabet {
    /// Names are distinct, and the set of each class holds exactly the
    /// identities of that class.
    pub closed spec fn wf(&self) -> bool {
        &&& names_distinct(self@)
        &&& self.type_sets@.len() == 3
        &&& forall|ty: SymbolType| #[trigger] self.type_sets@[ty.spec_index()]@ == class_ids(self@, ty)
    }

    pub fn len(&self) -> (r: usize)
        ensures
            r == self@.len(),
    {
        self.symbols.len()
    }

    pub fn name_for_id(&self, id: SymbolId) -> (r: Option<&String>)
        ensures
            match r {
                Some(s) => id.id < self@.len() && s@ == self@[id.id as int].0,
                None => id.id >= self@.len(),
            },
    {
        if id.id < self.symbols.len() {
            Some(&self.symbols[id.id].0)
        } else {
            None
        }
    }

    pub fn type_for_id(&self, id: SymbolId) -> (r: Option<SymbolType>)
        ensures
            match r {
                Some(t) => id.id < self@.len() && t == self@[id.id as int].1,
                None => id.id >= self@.len(),
            },
    {
        if id.id < self.symbols.len() {
            Some(self.symbols[id.id].1)
        } else {
            None
        }
    }

    pub fn id_for_name(&self, name: &str) -> (r: Option<SymbolId>)
        requires
            self.wf(),
        ensures
            match r {
                Some(id) => id.id < self@.len() && self@[id.id as int].0 == name@,
                None => !has_name(self@, name@),
            },
    {
        let owned = name.to_owned();
        match find_name(&self.symbols, &owned) {
            Some(i) => Some(SymbolId { id: i }),
            None => {
                proof {
                    assert forall|j: int| 0 <= j < self@.len() implies self@[j].0 != name@ by {
                        assert(self.symbols@[j].0@ != name@);
                    }
                }
                None
            },
        }
    }

    /// The identities of all symbols of class `sym_type`, in increasing order.
    pub fn get_type_set(&self, sym_type: SymbolType) -> (r: &Vec<SymbolId>)
        requires
            self.wf(),
        ensures
            r@ == class_ids(self@, sym_type),
    {
        &self.type_sets[sym_type.index()]
    }

    pub fn is_type(&self, sym_id: &SymbolId, test_type: SymbolType) -> (r: bool)
        ensures
            r == (sym_id.id < self@.len() && self@[sym_id.id as int].1 == test_type),
    {
        if sym_id.id < self.symbols.len() {
            self.symbols[sym_id.id].1 == test_type
        } else {
            false
        }
    }
}

} // verus!
