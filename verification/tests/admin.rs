use consensus_graph::admin::{
    generate_fn_table, Address, AdminAction, AdminControl, AdminFunction, Destroy, GetAdmin,
    SetAdmin,
};
use rustc_hex::FromHex;

fn bytes(text: &str) -> Vec<u8> {
    text.from_hex::<Vec<u8>>().unwrap()
}

fn address(n: u128) -> Address {
    Address { high: 1, low: n }
}

#[test]
fn test_admin_contract_sig_v2() {
    assert_eq!(GetAdmin {}.function_sig().to_vec(), bytes("64efb22b"));
    assert_eq!(SetAdmin {}.function_sig().to_vec(), bytes("c55b6bb7"));
    assert_eq!(Destroy {}.function_sig().to_vec(), bytes("00f55d9d"));
}

#[test]
fn table_holds_each_function_under_its_selector() {
    let table = generate_fn_table();
    assert_eq!(table.len(), 3);
    assert_eq!(table.get(&0x64efb22b), Some(&AdminFunction::GetAdmin));
    assert_eq!(table.get(&0xc55b6bb7), Some(&AdminFunction::SetAdmin));
    assert_eq!(table.get(&0x00f55d9d), Some(&AdminFunction::Destroy));
}

#[test]
fn contract_finds_functions_by_selector() {
    let contract = AdminControl::instance();
    assert_eq!(contract.address(), Address { high: 0x0888_0000, low: 0 });
    assert_eq!(contract.find([0x64, 0xef, 0xb2, 0x2b]), Some(AdminFunction::GetAdmin));
    assert_eq!(contract.find([0xc5, 0x5b, 0x6b, 0xb7]), Some(AdminFunction::SetAdmin));
    assert_eq!(contract.find([0x00, 0xf5, 0x5d, 0x9d]), Some(AdminFunction::Destroy));
    assert_eq!(contract.find([0x00, 0xf5, 0x5d, 0x9e]), None);
}

#[test]
fn only_queries_leave_the_state_alone() {
    assert!(AdminFunction::SetAdmin.has_write_op());
    assert!(AdminFunction::Destroy.has_write_op());
    assert!(!AdminFunction::GetAdmin.has_write_op());
    assert_eq!(AdminFunction::SetAdmin.gas_cost(5000, 400), 5000);
    assert_eq!(AdminFunction::Destroy.gas_cost(5000, 400), 5000);
    assert_eq!(AdminFunction::GetAdmin.gas_cost(5000, 400), 400);
    assert_eq!(AdminFunction::Destroy.function_sig(), Destroy {}.function_sig());
}

#[test]
fn calls_ask_for_actions() {
    assert_eq!(
        SetAdmin {}.execute_inner((address(1), address(2)), Some(address(3))),
        AdminAction::SetAdmin {
            contract: address(1),
            new_admin: address(2),
            contract_in_creation: Some(address(3)),
        }
    );
    assert_eq!(
        Destroy {}.execute_inner(address(4)),
        AdminAction::Destroy { contract: address(4) }
    );
    assert_eq!(
        GetAdmin {}.execute_inner(address(5)),
        AdminAction::GetAdmin { contract: address(5) }
    );
}
