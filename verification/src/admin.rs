//! The internal contract through which the admins of contracts are kept.
use std::collections::HashMap;

use vstd::prelude::*;
use vstd::string::StringSliceAdditionalSpecFns;

use crate::keccak::{keccak256, keccak_bytes};

verus! {

broadcast use vstd::std_specs::hash::group_hash_axioms;

/// The address of an account: its 20 bytes, as a big-endian number.
#[derive(Clone, Copy, PartialEq, Eq, Structural, Debug)]
pub struct Address {
    pub high: u32,
    pub low: u128,
}

/// Where the contract lives.
pub open spec fn admin_control_contract_address() -> Address {
    Address { high: 0x0888_0000, low: 0 }
}

/// The selector of a function: the first four bytes of the Keccak-256 hash of its declaration.
pub open spec fn selector(declaration: &str) -> Seq<u8> {
    keccak256(declaration.spec_bytes()).take(4)
}

fn selector_of(declaration: &str) -> (r: [u8; 4])
    ensures
        r@ == selector(declaration),
{
    let text: &[u8] = declaration.as_bytes();
    let mut bytes: Vec<u8> = Vec::new();
    let mut i: usize = 0;
    while i < text.len()
        invariant
            i <= text@.len(),
            bytes@ == text@.take(i as int),
        decreases text@.len() - i,
    {
        bytes.push(text[i]);
        assert(text@.take(i + 1) =~= text@.take(i as int).push(text@[i as int]));
        i = i + 1;
    }
    assert(text@.take(i as int) =~= text@);
    let digest: Vec<u8> = keccak_bytes(&bytes);
    let r: [u8; 4] = [digest[0], digest[1], digest[2], digest[3]];
    assert(r@ =~= selector(declaration));
    r
}

/// A selector as a big-endian number.
pub open spec fn selector_key(selector: Seq<u8>) -> u32 {
    (selector[0] * 0x100_0000 + selector[1] * 0x1_0000 + selector[2] * 0x100 + selector[3]) as u32
}

fn key_of_selector(selector: [u8; 4]) -> (r: u32)
    ensures
        r == selector_key(selector@),
{
    selector[0] as u32 * 0x100_0000 + selector[1] as u32 * 0x1_0000 + selector[2] as u32 * 0x100
        + selector[3] as u32
}

/// Sets the admin of a contract.
pub struct SetAdmin {}

/// Destroys a contract.
pub struct Destroy {}

/// Asks for the admin of a contract.
pub struct GetAdmin {}

/// What a function of the contract asks the state to do.
#[derive(Clone, Copy, PartialEq, Eq, Structural, Debug)]
pub enum AdminAction {
    /// Make `new_admin` the admin of `contract`. A contract that is being created may set its
    /// admin itself.
    SetAdmin { contract: Address, new_admin: Address, contract_in_creation: Option<Address> },
    /// Destroy `contract`.
    Destroy { contract: Address },
    /// Return the admin of `contract`.
    GetAdmin { contract: Address },
}

impl SetAdmin {
    /// The first four bytes of the hash of the declaration.
    pub fn function_sig(&self) -> (r: [u8; 4])
        ensures
            r@ == selector("setAdmin(address,address)"),
    {
        selector_of("setAdmin(address,address)")
    }

    /// What a call with the given arguments asks for.
    pub fn execute_inner(&self, inputs: (Address, Address), contract_in_creation: Option<Address>) -> (r:
        AdminAction)
        ensures
            r == (AdminAction::SetAdmin {
                contract: inputs.0,
                new_admin: inputs.1,
                contract_in_creation,
            }),
    {
        AdminAction::SetAdmin { contract: inputs.0, new_admin: inputs.1, contract_in_creation }
    }
}

impl Destroy {
    /// The first four bytes of the hash of the declaration.
    pub fn function_sig(&self) -> (r: [u8; 4])
        ensures
            r@ == selector("destroy(address)"),
    {
        selector_of("destroy(address)")
    }

    /// What a call with the given argument asks for.
    pub fn execute_inner(&self, input: Address) -> (r: AdminAction)
        ensures
            r == (AdminAction::Destroy { contract: input }),
    {
        AdminAction::Destroy { contract: input }
    }
}

impl GetAdmin {
    /// The first four bytes of the hash of the declaration.
    pub fn function_sig(&self) -> (r: [u8; 4])
        ensures
            r@ == selector("getAdmin(address)"),
    {
        selector_of("getAdmin(address)")
    }

    /// What a call with the given argument asks for.
    pub fn execute_inner(&self, input: Address) -> (r: AdminAction)
        ensures
            r == (AdminAction::GetAdmin { contract: input }),
    {
        AdminAction::GetAdmin { contract: input }
    }
}

/// The functions of the contract. None of them takes a payment.
#[derive(Clone, Copy, PartialEq, Eq, Structural, Debug)]
pub enum AdminFunction {
    SetAdmin,
    Destroy,
    GetAdmin,
}

impl AdminFunction {
    /// The selector of the function.
    pub open spec fn sig(self) -> Seq<u8> {
        match self {
            AdminFunction::SetAdmin => selector("setAdmin(address,address)"),
            AdminFunction::Destroy => selector("destroy(address)"),
            AdminFunction::GetAdmin => selector("getAdmin(address)"),
        }
    }

    /// The selector of the function.
    pub fn function_sig(&self) -> (r: [u8; 4])
        ensures
            r@ == self.sig(),
    {
        match self {
            AdminFunction::SetAdmin => (SetAdmin {  }).function_sig(),
            AdminFunction::Destroy => (Destroy {  }).function_sig(),
            AdminFunction::GetAdmin => (GetAdmin {  }).function_sig(),
        }
    }

    /// Whether the function changes the state, so that it cannot be called where the state must
    /// stay as it is.
    pub fn has_write_op(&self) -> (r: bool)
        ensures
            r == (*self != AdminFunction::GetAdmin),
    {
        match self {
            AdminFunction::SetAdmin => true,
            AdminFunction::Destroy => true,
            AdminFunction::GetAdmin => false,
        }
    }

    /// What a call costs: the price of resetting a storage entry for the functions that write,
    /// else the default price of a query.
    pub fn gas_cost(&self, sstore_reset_gas: u64, query_gas: u64) -> (r: u64)
        ensures
            r == (if *self != AdminFunction::GetAdmin {
                sstore_reset_gas
            } else {
                query_gas
            }),
    {
        if self.has_write_op() {
            sstore_reset_gas
        } else {
            query_gas
        }
    }
}

/// The functions of the contract by their selectors.
pub open spec fn fn_table() -> Map<u32, AdminFunction> {
    Map::empty().insert(
        selector_key(AdminFunction::SetAdmin.sig()),
        AdminFunction::SetAdmin,
    ).insert(selector_key(AdminFunction::Destroy.sig()), AdminFunction::Destroy).insert(
        selector_key(AdminFunction::GetAdmin.sig()),
        AdminFunction::GetAdmin,
    )
}

/// The functions of the contract by their selectors, each read as a big-endian number.
pub fn generate_fn_table() -> (r: HashMap<u32, AdminFunction>)
    ensures
        r@ == fn_table(),
{
    let mut table: HashMap<u32, AdminFunction> = HashMap::new();
    table.insert(key_of_selector(AdminFunction::SetAdmin.function_sig()), AdminFunction::SetAdmin);
    table.insert(key_of_selector(AdminFunction::Destroy.function_sig()), AdminFunction::Destroy);
    table.insert(key_of_selector(AdminFunction::GetAdmin.function_sig()), AdminFunction::GetAdmin);
    table
}

/// The contract.
pub struct AdminControl {
    function_table: HashMap<u32, AdminFunction>,
}

impl AdminControl {
    pub closed spec fn table(&self) -> Map<u32, AdminFunction> {
        self.function_table@
    }

    /// The contract with its functions.
    pub fn instance() -> (r: Self)
        ensures
            r.table() == fn_table(),
    {
        AdminControl { function_table: generate_fn_table() }
    }

    /// Where the contract lives.
    pub fn address(&self) -> (r: Address)
        ensures
            r == admin_control_contract_address(),
    {
        Address { high: 0x0888_0000, low: 0 }
    }

    /// The function that a selector stands for.
    pub fn find(&self, selector: [u8; 4]) -> (r: Option<AdminFunction>)
        ensures
            match r {
                Some(f) => self.table().contains_key(selector_key(selector@)) && f
                    == self.table()[selector_key(selector@)],
                None => !self.table().contains_key(selector_key(selector@)),
            },
    {
        match self.function_table.get(&key_of_selector(selector)) {
            Some(f) => Some(*f),
            None => None,
        }
    }
}

/// Selectors are told apart by the numbers that they are found by.
pub proof fn law_selectors_are_told_apart(a: Seq<u8>, b: Seq<u8>)
    requires
        a.len() == 4,
        b.len() == 4,
    ensures
        selector_key(a) == selector_key(b) <==> a == b,
{
    if selector_key(a) == selector_key(b) {
        assert(a =~= b);
    }
}

/// Each function is found by the first four bytes of the Keccak-256 hash of its declaration, as long as
/// those differ, and nothing else is found.
pub proof fn law_functions_are_found(key: u32)
    ensures
        ({
            let declared = |s: &str| selector_key(keccak256(s.spec_bytes()).subrange(0, 4));
            let set = declared("setAdmin(address,address)");
            let destroy = declared("destroy(address)");
            let get = declared("getAdmin(address)");
            &&& fn_table().contains_key(key) <==> key == set || key == destroy || key == get
            &&& fn_table()[get] == AdminFunction::GetAdmin
            &&& destroy != get ==> fn_table()[destroy] == AdminFunction::Destroy
            &&& set != get && set != destroy ==> fn_table()[set] == AdminFunction::SetAdmin
        }),
{
}

} // verus!
