//! The metadata that is kept beside a binary: its functions, types and variables.

use vstd::hash_map::StringHashMap;
use vstd::prelude::*;

use crate::text::opt_text;
use crate::text::same_text;
use crate::text::texts;
use crate::text::Text;

verus! {

/// The version of the metadata's format.
pub const FORMAT_VERSION: u32 = 1;

/// How the bytes of a field are to be read.
#[derive(Debug, Clone, Copy, PartialEq, Eq, Structural)]
pub enum ScalarKind {
    Signed,
    Unsigned,
    Float,
    Bool,
    Pointer,
    Other,
}

/// A field of a type.
#[derive(Debug, Clone)]
pub struct Field {
    pub name: String,
    pub offset: u64,
    pub size: u64,
    pub ty_name: String,
    pub kind: ScalarKind,
}

/// The layout of a structure, a union or an enumeration.
#[derive(Debug, Clone)]
pub struct TypeLayout {
    pub name: String,
    pub size: u64,
    pub align: Option<u64>,
    pub fields: Vec<Field>,
}

/// A parameter of a function, and where it lies when the function is entered.
#[derive(Debug, Clone)]
pub struct Param {
    pub name: String,
    pub ty_name: String,
    pub size: Option<u64>,
    pub entry_reg: Option<String>,
}

/// A function: its own code, where it has any, and the places where it was inlined.
#[derive(Debug, Clone)]
pub struct Function {
    pub name: String,
    pub linkage_name: Option<String>,
    pub address: Option<u64>,
    pub size: Option<u64>,
    pub inlined_at: Vec<u64>,
    pub params: Vec<Param>,
}

/// A variable at a fixed address.
#[derive(Debug, Clone)]
pub struct Variable {
    pub name: String,
    pub linkage_name: Option<String>,
    pub address: u64,
    pub size: Option<u64>,
    pub ty_name: String,
}

/// What is known of a binary.
#[derive(Debug, Clone)]
pub struct Metadata {
    pub format_version: u32,
    pub crate_filter: Vec<String>,
    pub build_id: Option<String>,
    pub pie: bool,
    pub image_base: u64,
    pub functions: Vec<Function>,
    pub types: Vec<TypeLayout>,
    pub variables: Vec<Variable>,
}

// ---- views ----

#[verifier::ext_equal]
pub struct FieldV {
    pub name: Text,
    pub offset: u64,
    pub size: u64,
    pub ty_name: Text,
    pub kind: ScalarKind,
}

#[verifier::ext_equal]
pub struct TypeV {
    pub name: Text,
    pub size: u64,
    pub align: Option<u64>,
    pub fields: Seq<FieldV>,
}

#[verifier::ext_equal]
pub struct ParamV {
    pub name: Text,
    pub ty_name: Text,
    pub size: Option<u64>,
    pub entry_reg: Option<Text>,
}

#[verifier::ext_equal]
pub struct FunctionV {
    pub name: Text,
    pub linkage_name: Option<Text>,
    pub address: Option<u64>,
    pub size: Option<u64>,
    pub inlined_at: Seq<u64>,
    pub params: Seq<ParamV>,
}

#[verifier::ext_equal]
pub struct VariableV {
    pub name: Text,
    pub linkage_name: Option<Text>,
    pub address: u64,
    pub size: Option<u64>,
    pub ty_name: Text,
}

#[verifier::ext_equal]
pub struct MetadataV {
    pub format_version: u32,
    pub crate_filter: Seq<Text>,
    pub build_id: Option<Text>,
    pub pie: bool,
    pub image_base: u64,
    pub functions: Seq<FunctionV>,
    pub types: Seq<TypeV>,
    pub variables: Seq<VariableV>,
}

impl View for Field {
    type V = FieldV;

    open spec fn view(&self) -> FieldV {
        FieldV {
            name: self.name@,
            offset: self.offset,
            size: self.size,
            ty_name: self.ty_name@,
            kind: self.kind,
        }
    }
}

/// The values of a list, each by its view.
pub open spec fn views<T: View>(list: Seq<T>) -> Seq<T::V> {
    list.map_values(|t: T| t@)
}

impl View for TypeLayout {
    type V = TypeV;

    open spec fn view(&self) -> TypeV {
        TypeV { name: self.name@, size: self.size, align: self.align, fields: views(self.fields@) }
    }
}

impl View for Param {
    type V = ParamV;

    open spec fn view(&self) -> ParamV {
        ParamV {
            name: self.name@,
            ty_name: self.ty_name@,
            size: self.size,
            entry_reg: opt_text(self.entry_reg),
        }
    }
}

impl View for Function {
    type V = FunctionV;

    open spec fn view(&self) -> FunctionV {
        FunctionV {
            name: self.name@,
            linkage_name: opt_text(self.linkage_name),
            address: self.address,
            size: self.size,
            inlined_at: self.inlined_at@,
            params: views(self.params@),
        }
    }
}

impl View for Variable {
    type V = VariableV;

    open spec fn view(&self) -> VariableV {
        VariableV {
            name: self.name@,
            linkage_name: opt_text(self.linkage_name),
            address: self.address,
            size: self.size,
            ty_name: self.ty_name@,
        }
    }
}

impl View for Metadata {
    type V = MetadataV;

    open spec fn view(&self) -> MetadataV {
        MetadataV {
            format_version: self.format_version,
            crate_filter: texts(self.crate_filter@),
            build_id: opt_text(self.build_id),
            pie: self.pie,
            image_base: self.image_base,
            functions: views(self.functions@),
            types: views(self.types@),
            variables: views(self.variables@),
        }
    }
}

// ---- lookups ----

/// The first position from `i` on that satisfies `wanted`, of `len` positions.
pub open spec fn first_from(len: int, wanted: spec_fn(int) -> bool, i: int) -> Option<int>
    decreases len - i,
{
    if i >= len {
        None
    } else if wanted(i) {
        Some(i)
    } else {
        first_from(len, wanted, i + 1)
    }
}

/// The first of `len` positions that satisfies `wanted`.
pub open spec fn first_such(len: nat, wanted: spec_fn(int) -> bool) -> Option<int> {
    first_from(len as int, wanted, 0)
}

/// The first such position is one that satisfies the condition, and none before it does; where there
/// is none, no position satisfies it.
pub proof fn lemma_first_from(len: int, wanted: spec_fn(int) -> bool, i: int)
    ensures
        match first_from(len, wanted, i) {
            Some(k) => i <= k < len && wanted(k) && forall|j: int| i <= j < k ==> !#[trigger] wanted(j),
            None => forall|j: int| i <= j < len ==> !#[trigger] wanted(j),
        },
    decreases len - i,
{
    if i < len && !wanted(i) {
        lemma_first_from(len, wanted, i + 1);
    }
}

impl MetadataV {
    /// The position of the first type called `name`.
    pub open spec fn type_at(self, name: Text) -> Option<int> {
        first_such(self.types.len(), |i: int| self.types[i].name == name)
    }

    /// The position of the first variable called `name`, or else of the first whose linkage name it is.
    pub open spec fn variable_at(self, name: Text) -> Option<int> {
        match first_such(self.variables.len(), |i: int| self.variables[i].name == name) {
            Some(i) => Some(i),
            None => first_such(
                self.variables.len(),
                |i: int| self.variables[i].linkage_name == Some(name),
            ),
        }
    }

    /// The position of the first function called `name` that has code of its own.
    pub open spec fn code_at(self, name: Text) -> Option<int> {
        first_such(
            self.functions.len(),
            |i: int| self.functions[i].name == name && self.functions[i].address is Some,
        )
    }
}

/// The positions of the functions called `name`, in order.
pub open spec fn positions(functions: Seq<FunctionV>, name: Text) -> Seq<usize>
    decreases functions.len(),
{
    if functions.len() == 0 {
        Seq::empty()
    } else {
        let before = positions(functions.drop_last(), name);
        if functions.last().name == name {
            before.push((functions.len() - 1) as usize)
        } else {
            before
        }
    }
}

/// For each name that a function has, the positions of the functions that have it.
pub open spec fn index_of(functions: Seq<FunctionV>) -> Map<Text, Seq<usize>> {
    Map::new(
        |name: Text| positions(functions, name).len() > 0,
        |name: Text| positions(functions, name),
    )
}

/// The functions of a binary by name.
pub struct FunctionIndex {
    slots: StringHashMap<usize>,
    groups: Vec<Vec<usize>>,
}

impl View for FunctionIndex {
    type V = Map<Text, Seq<usize>>;

    closed spec fn view(&self) -> Map<Text, Seq<usize>> {
        Map::new(
            |name: Text| self.slots@.contains_key(name),
            |name: Text| self.groups@[self.slots@[name] as int]@,
        )
    }
}

impl FunctionIndex {
    #[verifier::type_invariant]
    spec fn inv(self) -> bool {
        &&& forall|name: Text| #[trigger]
            self.slots@.contains_key(name) ==> self.slots@[name] < self.groups.len()
        &&& forall|a: Text, b: Text|
            #![trigger self.slots@[a], self.slots@[b]]
            self.slots@.contains_key(a) && self.slots@.contains_key(b) && a != b ==> self.slots@[a]
                != self.slots@[b]
    }

    /// The positions of the functions called `name`, in order; none where there is no such function.
    pub fn get(&self, name: &str) -> (r: Option<&Vec<usize>>)
        ensures
            match r {
                Some(list) => self@.contains_key(name@) && list@ == self@[name@],
                None => !self@.contains_key(name@),
            },
    {
        proof {
            use_type_invariant(self);
        }
        match self.slots.get(name) {
            Some(slot) => Some(&self.groups[*slot]),
            None => None,
        }
    }
}

impl Metadata {
    /// The functions by name: for each name, all the functions that have it.
    pub fn function_index(&self) -> (r: FunctionIndex)
        ensures
            r@ == index_of(self@.functions),
    {
        let ghost all = self@.functions;
        let mut slots: StringHashMap<usize> = StringHashMap::new();
        let mut groups: Vec<Vec<usize>> = Vec::new();
        let mut i: usize = 0;
        while i < self.functions.len()
            invariant
                i <= self.functions.len(),
                all == self@.functions,
                forall|name: Text| #[trigger]
                    slots@.contains_key(name) ==> slots@[name] < groups.len(),
                forall|a: Text, b: Text|
                    #![trigger slots@[a], slots@[b]]
                    slots@.contains_key(a) && slots@.contains_key(b) && a != b ==> slots@[a] != slots@[b],
                forall|name: Text|
                    #![trigger slots@.contains_key(name)]
                    #![trigger positions(all.take(i as int), name)]
                    slots@.contains_key(name) <==> positions(all.take(i as int), name).len() > 0,
                forall|name: Text| #[trigger]
                    slots@.contains_key(name) ==> groups@[slots@[name] as int]@ == positions(
                        all.take(i as int),
                        name,
                    ),
            decreases self.functions.len() - i,
        {
            let ghost name = self.functions@[i as int].name@;
            proof {
                assert(all.take(i + 1).drop_last() =~= all.take(i as int));
                assert(all.take(i + 1).last().name == name);
                assert(forall|n: Text|
                    n != name ==> #[trigger] positions(all.take(i + 1), n) == positions(all.take(i as int), n));
                assert(positions(all.take(i + 1), name) == positions(all.take(i as int), name).push(i));
            }
            let found: Option<usize> = match slots.get(self.functions[i].name.as_str()) {
                Some(slot) => Some(*slot),
                None => None,
            };
            match found {
                Some(slot) => {
                    groups[slot].push(i);
                },
                None => {
                    let slot: usize = groups.len();
                    let mut group: Vec<usize> = Vec::new();
                    group.push(i);
                    groups.push(group);
                    slots.insert(self.functions[i].name.clone(), slot);
                    assert(group@ =~= positions(all.take(i + 1), name));
                },
            }
            i += 1;
        }
        assert(all.take(i as int) =~= all);
        let r = FunctionIndex { slots, groups };
        assert(r@ =~= index_of(all));
        r
    }

    /// The first type called `name`.
    pub fn type_by_name(&self, name: &str) -> (r: Option<&TypeLayout>)
        ensures
            match self@.type_at(name@) {
                Some(i) => r == Some(&self.types@[i]),
                None => r is None,
            },
    {
        let ghost wanted = |i: int| self@.types[i].name == name@;
        let mut i: usize = 0;
        while i < self.types.len()
            invariant
                i <= self.types.len(),
                wanted == |i: int| self@.types[i].name == name@,
                self@.type_at(name@) == first_from(self.types.len() as int, wanted, i as int),
            decreases self.types.len() - i,
        {
            if same_text(self.types[i].name.as_str(), name) {
                return Some(&self.types[i]);
            }
            i += 1;
        }
        None
    }

    /// The first variable called `name`, or else the first whose linkage name is `name`.
    pub fn variable_by_name(&self, name: &str) -> (r: Option<&Variable>)
        ensures
            match self@.variable_at(name@) {
                Some(i) => r == Some(&self.variables@[i]),
                None => r is None,
            },
    {
        let ghost named = |i: int| self@.variables[i].name == name@;
        let ghost linked = |i: int| self@.variables[i].linkage_name == Some(name@);
        let mut i: usize = 0;
        while i < self.variables.len()
            invariant
                i <= self.variables.len(),
                named == |i: int| self@.variables[i].name == name@,
                first_such(self@.variables.len(), named) == first_from(
                    self.variables.len() as int,
                    named,
                    i as int,
                ),
            decreases self.variables.len() - i,
        {
            if same_text(self.variables[i].name.as_str(), name) {
                return Some(&self.variables[i]);
            }
            i += 1;
        }
        let mut k: usize = 0;
        while k < self.variables.len()
            invariant
                k <= self.variables.len(),
                linked == |i: int| self@.variables[i].linkage_name == Some(name@),
                first_such(self@.variables.len(), named) is None,
                named == |i: int| self@.variables[i].name == name@,
                first_such(self@.variables.len(), linked) == first_from(
                    self.variables.len() as int,
                    linked,
                    k as int,
                ),
            decreases self.variables.len() - k,
        {
            if let Some(linkage) = &self.variables[k].linkage_name {
                if same_text(linkage.as_str(), name) {
                    return Some(&self.variables[k]);
                }
            }
            k += 1;
        }
        None
    }

    /// The path of the metadata file of a binary, both as the bytes that the system knows them by.
    pub fn path_for_bin(bin: &[u8]) -> (r: Vec<u8>)
        ensures
            r@ == bin@ + metadata_suffix(),
    {
        let mut path: Vec<u8> = Vec::new();
        path.extend_from_slice(bin);
        let suffix: [u8; 10] = [46, 114, 114, 109, 102, 46, 106, 115, 111, 110];
        path.extend_from_slice(&suffix);
        assert(suffix@ =~= metadata_suffix());
        path
    }
}

/// What the name of a metadata file ends with: the bytes of `.rrmf.json`.
pub open spec fn metadata_suffix() -> Seq<u8> {
    seq![46u8, 114u8, 114u8, 109u8, 102u8, 46u8, 106u8, 115u8, 111u8, 110u8]
}

/// Where a field lies in its type, how large it is and how it is to be read; none where there is no
/// such type, or the first type of that name has no such field.
pub open spec fn field_found(meta: MetadataV, type_called: Text, field: Text) -> Option<(u64, u64, ScalarKind)> {
    match meta.type_at(type_called) {
        Some(t) => {
            let fields = meta.types[t].fields;
            match first_such(fields.len(), |i: int| fields[i].name == field) {
                Some(i) => Some((fields[i].offset, fields[i].size, fields[i].kind)),
                None => None,
            }
        },
        None => None,
    }
}

/// The offset, the size and the kind of a field.
pub fn field_lookup(meta: &Metadata, type_called: &str, field: &str) -> (r: Option<(u64, u64, ScalarKind)>)
    ensures
        r == field_found(meta@, type_called@, field@),
{
    proof {
        lemma_first_from(
            meta@.types.len() as int,
            |i: int| meta@.types[i].name == type_called@,
            0,
        );
    }
    let t: &TypeLayout = match meta.type_by_name(type_called) {
        Some(t) => t,
        None => {
            return None;
        },
    };
    let ghost fields = t@.fields;
    let ghost wanted = |i: int| fields[i].name == field@;
    let mut i: usize = 0;
    while i < t.fields.len()
        invariant
            i <= t.fields.len(),
            fields == t@.fields,
            wanted == |i: int| fields[i].name == field@,
            first_such(fields.len(), wanted) == first_from(t.fields.len() as int, wanted, i as int),
            match first_such(fields.len(), wanted) {
                Some(i) => field_found(meta@, type_called@, field@) == Some(
                    (fields[i].offset, fields[i].size, fields[i].kind),
                ),
                None => field_found(meta@, type_called@, field@) is None,
            },
        decreases t.fields.len() - i,
    {
        let f: &Field = &t.fields[i];
        if same_text(f.name.as_str(), field) {
            return Some((f.offset, f.size, f.kind));
        }
        i += 1;
    }
    None
}

/// The index leads to every function and to no other: the positions listed under a name are, in
/// order and once each, those of the functions that have it.
pub proof fn law_positions(functions: Seq<FunctionV>, name: Text)
    requires
        functions.len() <= usize::MAX,
    ensures
        forall|k: int| 0 <= k < positions(functions, name).len() ==> {
            let p = #[trigger] positions(functions, name)[k];
            p < functions.len() && functions[p as int].name == name
        },
        forall|a: int, b: int|
            0 <= a < b < positions(functions, name).len() ==> #[trigger] positions(functions, name)[a]
                < #[trigger] positions(functions, name)[b],
        forall|i: int|
            0 <= i < functions.len() && #[trigger] functions[i].name == name ==> positions(
                functions,
                name,
            ).contains(i as usize),
    decreases functions.len(),
{
    if functions.len() > 0 {
        let before = functions.drop_last();
        law_positions(before, name);
        let p = positions(before, name);
        let q = positions(functions, name);
        assert forall|i: int| 0 <= i < functions.len() && #[trigger] functions[i].name == name implies q.contains(
            i as usize,
        ) by {
            if i < functions.len() - 1 {
                assert(before[i].name == name);
                let k = choose|k: int| 0 <= k < p.len() && p[k] == i as usize;
                assert(q[k] == i as usize);
            } else {
                assert(q[p.len() as int] == i as usize);
            }
        }
    }
}

} // verus!
