//! Core data model: account addresses, identifiers, type tags and module ids,
//! together with their ghost mirrors and well-formedness predicates.
use vstd::prelude::*;

verus! {

broadcast use vstd::std_specs::vec::group_vec_axioms, vstd::seq::group_seq_axioms;

/// Number of bytes in a canonical account address.
pub const ADDRESS_LENGTH: usize = 32;

// ---------------------------------------------------------------------------
// Ghost mirrors
// ---------------------------------------------------------------------------

/// Ghost mirror of [`StructTag`].
pub struct StructTagV {
    pub addr: Seq<u8>,
    pub module: Seq<u8>,
    pub name: Seq<u8>,
    pub type_args: Seq<TypeTagV>,
}

/// Ghost mirror of [`TypeTag`].
pub enum TypeTagV {
    Bool,
    U8,
    U64,
    U128,
    Address,
    Signer,
    Vector(Box<TypeTagV>),
    Struct(StructTagV),
}

/// Ghost mirror of [`ModuleId`].
pub struct ModuleIdV {
    pub addr: Seq<u8>,
    pub name: Seq<u8>,
}

// ---------------------------------------------------------------------------
// Executable types
// ---------------------------------------------------------------------------

/// A fixed-length on-chain account address.
#[derive(Debug, Clone, PartialEq, Eq, PartialOrd, Ord)]
pub struct AccountAddress {
    pub bytes: Vec<u8>,
}

/// A module, struct or function name: ASCII `[A-Za-z_][A-Za-z0-9_]*`.
#[derive(Debug, Clone, PartialEq, Eq, PartialOrd, Ord)]
pub struct Identifier {
    pub bytes: Vec<u8>,
}

/// A fully-qualified struct type: defining address, module, name and
/// (possibly empty) ordered type arguments.
#[derive(Debug, PartialEq, Eq)]
pub struct StructTag {
    pub address: AccountAddress,
    pub module: Identifier,
    pub name: Identifier,
    pub type_args: Vec<TypeTag>,
}

/// A runtime type descriptor.
#[derive(Debug, PartialEq, Eq)]
pub enum TypeTag {
    Bool,
    U8,
    U64,
    U128,
    Address,
    Signer,
    Vector(Box<TypeTag>),
    Struct(StructTag),
}

/// The lookup key for module bytecode: defining address plus module name.
#[derive(Debug, Clone, PartialEq, Eq)]
pub struct ModuleId {
    pub address: AccountAddress,
    pub name: Identifier,
}

impl View for AccountAddress {
    type V = Seq<u8>;

    open spec fn view(&self) -> Seq<u8> {
        self.bytes@
    }
}

impl View for Identifier {
    type V = Seq<u8>;

    open spec fn view(&self) -> Seq<u8> {
        self.bytes@
    }
}

/// View of every element of a tag list.
pub open spec fn view_tags(ts: Seq<TypeTag>) -> Seq<TypeTagV>
    decreases ts,
{
    if ts.len() == 0 {
        Seq::empty()
    } else {
        view_tags(ts.drop_last()).push(ts.last()@)
    }
}

impl View for StructTag {
    type V = StructTagV;

    open spec fn view(&self) -> StructTagV
        decreases self,
    {
        StructTagV {
            addr: self.address@,
            module: self.module@,
            name: self.name@,
            type_args: view_tags(self.type_args@),
        }
    }
}

impl View for TypeTag {
    type V = TypeTagV;

    open spec fn view(&self) -> TypeTagV
        decreases self,
    {
        match self {
            TypeTag::Bool => TypeTagV::Bool,
            TypeTag::U8 => TypeTagV::U8,
            TypeTag::U64 => TypeTagV::U64,
            TypeTag::U128 => TypeTagV::U128,
            TypeTag::Address => TypeTagV::Address,
            TypeTag::Signer => TypeTagV::Signer,
            TypeTag::Vector(t) => TypeTagV::Vector(Box::new((**t)@)),
            TypeTag::Struct(s) => TypeTagV::Struct(s@),
        }
    }
}

impl View for ModuleId {
    type V = ModuleIdV;

    open spec fn view(&self) -> ModuleIdV {
        ModuleIdV { addr: self.address@, name: self.name@ }
    }
}

pub broadcast proof fn lemma_view_tags_len(ts: Seq<TypeTag>)
    ensures
        #[trigger] view_tags(ts).len() == ts.len(),
    decreases ts,
{
    if ts.len() > 0 {
        assert(view_tags(ts) == view_tags(ts.drop_last()).push(ts.last()@));
        lemma_view_tags_len(ts.drop_last());
    } else {
        assert(view_tags(ts) == Seq::<TypeTagV>::empty());
    }
}

pub broadcast proof fn lemma_view_tags_index(ts: Seq<TypeTag>, i: int)
    requires
        0 <= i < ts.len(),
    ensures
        #[trigger] view_tags(ts)[i] == ts[i]@,
    decreases ts,
{
    lemma_view_tags_len(ts);
    assert(view_tags(ts) == view_tags(ts.drop_last()).push(ts.last()@));
    if i < ts.len() - 1 {
        lemma_view_tags_index(ts.drop_last(), i);
    }
}

// ---------------------------------------------------------------------------
// Well-formedness
// ---------------------------------------------------------------------------

/// True for bytes that may start an identifier.
pub open spec fn is_ident_start(b: u8) -> bool {
    b == 95 || (65 <= b <= 90) || (97 <= b <= 122)
}

/// True for bytes that may continue an identifier.
pub open spec fn is_ident_char(b: u8) -> bool {
    is_ident_start(b) || (48 <= b <= 57)
}

/// A valid identifier: non-empty ASCII letters, digits and underscores, not
/// starting with a digit, and small enough for a canonical length prefix.
pub open spec fn ident_wf(s: Seq<u8>) -> bool {
    &&& 1 <= s.len() < 0x1_0000_0000
    &&& is_ident_start(s[0])
    &&& forall|i: int| 0 <= i < s.len() ==> is_ident_char(#[trigger] s[i])
}

pub open spec fn addr_wf(a: Seq<u8>) -> bool {
    a.len() == ADDRESS_LENGTH
}

pub open spec fn struct_tag_wf(t: StructTagV) -> bool
    decreases t,
{
    &&& addr_wf(t.addr)
    &&& ident_wf(t.module)
    &&& ident_wf(t.name)
    &&& t.type_args.len() < 0x1_0000_0000
    &&& forall|i: int|
        0 <= i < t.type_args.len() ==> type_tag_wf(#[trigger] t.type_args[i])
}

pub open spec fn type_tag_wf(t: TypeTagV) -> bool
    decreases t,
{
    match t {
        TypeTagV::Vector(inner) => type_tag_wf(*inner),
        TypeTagV::Struct(s) => struct_tag_wf(s),
        _ => true,
    }
}

pub open spec fn module_id_wf(m: ModuleIdV) -> bool {
    addr_wf(m.addr) && ident_wf(m.name)
}

// ---------------------------------------------------------------------------
// Executable helpers
// ---------------------------------------------------------------------------

impl AccountAddress {
    /// The address is exactly [`ADDRESS_LENGTH`] bytes.
    pub open spec fn wf(&self) -> bool {
        addr_wf(self@)
    }

    pub fn new(bytes: Vec<u8>) -> (r: Result<AccountAddress, crate::errors::Error>)
        ensures
            r matches Ok(a) ==> a@ == bytes@ && a.wf(),
            r is Err <==> bytes@.len() != ADDRESS_LENGTH,
    {
        if bytes.len() == ADDRESS_LENGTH {
            Ok(AccountAddress { bytes })
        } else {
            Err(crate::errors::Error::MalformedTypeTag)
        }
    }
}

/// Tests one byte for being an identifier character.
pub fn ident_char_check(b: u8) -> (r: bool)
    ensures
        r == is_ident_char(b),
{
    b == 95 || (65 <= b && b <= 90) || (97 <= b && b <= 122) || (48 <= b && b <= 57)
}

/// Checks the identifier grammar over raw bytes.
pub fn ident_bytes_ok(s: &[u8]) -> (r: bool)
    ensures
        r == ident_wf(s@),
{
    if s.len() == 0 {
        return false;
    }
    if s.len() as u64 >= 0x1_0000_0000u64 {
        return false;
    }
    let b0 = s[0];
    if !(b0 == 95 || (65 <= b0 && b0 <= 90) || (97 <= b0 && b0 <= 122)) {
        return false;
    }
    let mut i: usize = 1;
    while i < s.len()
        invariant
            1 <= i <= s@.len() < 0x1_0000_0000,
            is_ident_start(s@[0]),
            forall|j: int| 0 <= j < i ==> is_ident_char(#[trigger] s@[j]),
        decreases s@.len() - i,
    {
        let b = s[i];
        if !(b == 95 || (65 <= b && b <= 90) || (97 <= b && b <= 122) || (48 <= b && b <= 57)) {
            return false;
        }
        i += 1;
    }
    true
}

impl Identifier {
    pub open spec fn wf(&self) -> bool {
        ident_wf(self@)
    }

    /// Validates and wraps an identifier, as `Identifier::from_utf8` does for
    /// the on-chain name grammar.
    pub fn from_bytes(bytes: Vec<u8>) -> (r: Result<Identifier, crate::errors::Error>)
        ensures
            r matches Ok(id) ==> id@ == bytes@ && id.wf(),
            r is Err <==> !ident_wf(bytes@),
    {
        if ident_bytes_ok(bytes.as_slice()) {
            Ok(Identifier { bytes })
        } else {
            Err(crate::errors::Error::MalformedTypeTag)
        }
    }
}

impl StructTag {
    pub open spec fn wf(&self) -> bool {
        struct_tag_wf(self@)
    }
}

impl TypeTag {
    pub open spec fn wf(&self) -> bool {
        type_tag_wf(self@)
    }
}

impl ModuleId {
    pub open spec fn wf(&self) -> bool {
        module_id_wf(self@)
    }

    pub fn new(address: AccountAddress, name: Identifier) -> (r: ModuleId)
        ensures
            r@ == (ModuleIdV { addr: address@, name: name@ }),
    {
        ModuleId { address, name }
    }
}

/// Copies a byte vector; the copy has the same view.
pub fn clone_bytes(v: &Vec<u8>) -> (r: Vec<u8>)
    ensures
        r@ == v@,
{
    let r = v.clone();
    proof {
        assert(r@ =~= v@);
    }
    r
}

impl AccountAddress {
    /// An explicit deep copy whose contract Verus can use.
    pub fn dup(&self) -> (r: AccountAddress)
        ensures
            r@ == self@,
    {
        AccountAddress { bytes: clone_bytes(&self.bytes) }
    }
}

impl Identifier {
    /// An explicit deep copy whose contract Verus can use.
    pub fn dup(&self) -> (r: Identifier)
        ensures
            r@ == self@,
    {
        Identifier { bytes: clone_bytes(&self.bytes) }
    }
}

/// Projects the module id out of a struct tag: a pure projection of the
/// defining address and module name.
pub fn derive_module_id(tag: &StructTag) -> (r: ModuleId)
    ensures
        r@ == (ModuleIdV { addr: tag@.addr, name: tag@.module }),
{
    ModuleId { address: tag.address.dup(), name: tag.module.dup() }
}

} // verus!
