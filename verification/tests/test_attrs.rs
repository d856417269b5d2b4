use midenc::test_attrs::{
    chain_binding, check_for_chain, sort_attrs, validate_all, Account, AccountAttrBuilder,
    ChainAttrBuilder, Faucet, FaucetAttrBuilder, MockChainBuilder, Package, PackageAttrBuilder,
    RecognizedAttrs, RecognizedAttrsBuilder, ACCOUNT_HELP, CHAIN_HELP, FAUCET_HELP, PACKAGE_HELP,
};

fn chain(name: &str) -> RecognizedAttrs {
    RecognizedAttrs::Chain(MockChainBuilder { binding: name.to_string() })
}

fn package(name: &str) -> RecognizedAttrs {
    RecognizedAttrs::Package(Package { binding: name.to_string(), path: String::new() })
}

fn account(component: &str) -> RecognizedAttrs {
    RecognizedAttrs::Account(Account {
        binding: "account".to_string(),
        component: component.to_string(),
        seed: 1,
    })
}

fn faucet() -> RecognizedAttrs {
    RecognizedAttrs::Faucet(Faucet {
        binding: "faucet".to_string(),
        max_supply: 10,
        token_symbol: "TEST".to_string(),
        exists: true,
        issuance: 0,
    })
}

#[test]
fn builders_apply_defaults() {
    let a = AccountAttrBuilder { name: None, component: None, seed: None }.build();
    assert_eq!(a.binding, "account");
    assert_eq!(a.component, "wallet");
    assert_eq!(a.seed, 1);

    let c = ChainAttrBuilder { name: None }.build();
    assert_eq!(c.binding, "chain");

    let f = FaucetAttrBuilder {
        name: None,
        max_supply: None,
        token_symbol: None,
        exists: None,
        issuance: None,
    }
    .build();
    assert_eq!(f.binding, "faucet");
    assert_eq!(f.max_supply, 1_000_000_000);
    assert_eq!(f.token_symbol, "TEST");
    assert!(f.exists);
    assert_eq!(f.issuance, 0);

    let p = PackageAttrBuilder { name: None, path: None }.build();
    assert_eq!(p.binding, "package");
    assert_eq!(p.path, "");
}

#[test]
fn builders_keep_given_values() {
    let a = AccountAttrBuilder {
        name: Some("alice".to_string()),
        component: Some("token".to_string()),
        seed: Some(7),
    }
    .build();
    assert_eq!((a.binding.as_str(), a.component.as_str(), a.seed), ("alice", "token", 7));

    let built = RecognizedAttrsBuilder::Faucet(FaucetAttrBuilder {
        name: Some("f".to_string()),
        max_supply: Some(5),
        token_symbol: Some("BTC".to_string()),
        exists: Some(false),
        issuance: Some(3),
    })
    .build();
    match built {
        RecognizedAttrs::Faucet(f) => {
            assert_eq!(f.binding, "f");
            assert_eq!(f.max_supply, 5);
            assert_eq!(f.token_symbol, "BTC");
            assert!(!f.exists);
            assert_eq!(f.issuance, 3);
        }
        other => panic!("unexpected attribute {other:?}"),
    }
}

#[test]
fn help_lists_every_attribute_or_the_selected_one() {
    let all = RecognizedAttrsBuilder::help(None);
    assert_eq!(all, format!("\n{ACCOUNT_HELP}\n{CHAIN_HELP}\n{FAUCET_HELP}\n{PACKAGE_HELP}"));
    let chain_only = RecognizedAttrsBuilder::help(Some("chain".to_string()));
    assert_eq!(chain_only, format!("\n{CHAIN_HELP}"));
    assert!(chain_only.contains("\t- name: Variable name for this chain in generated code. Default: \"chain\".\n"));
    assert_eq!(RecognizedAttrsBuilder::help(Some("unknown".to_string())), "");
    assert!(ACCOUNT_HELP.starts_with(&"-".repeat(79)));
    assert!(ACCOUNT_HELP.contains("\naccount\n"));
}

#[test]
fn check_for_chain_finds_a_chain() {
    assert!(!check_for_chain(&[package("p")]));
    assert!(check_for_chain(&[package("p"), chain("c")]));
}

#[test]
fn account_validation_errors() {
    let attrs = vec![account("wallet")];
    assert_eq!(
        attrs[0].validate(&attrs).unwrap_err(),
        "account requires at least the presence of a chain"
    );
    let attrs = vec![chain("chain"), account("wallet")];
    assert_eq!(
        attrs[1].validate(&attrs).unwrap_err(),
        "account needs 1 package named wallet, yet no wallet 'package' found"
    );
    let attrs = vec![chain("chain"), package("wallet"), package("wallet"), account("wallet")];
    assert_eq!(
        attrs[3].validate(&attrs).unwrap_err(),
        "account needs only 1 package named wallet, yet 2 wallet were found"
    );
    let attrs = vec![chain("chain"), package("wallet"), account("wallet")];
    assert!(attrs[2].validate(&attrs).is_ok());
}

#[test]
fn faucet_and_package_validation_errors() {
    let attrs = vec![faucet()];
    assert_eq!(
        attrs[0].validate(&attrs).unwrap_err(),
        "faucet requires at least the presence of a chain"
    );
    let attrs = vec![package("p"), package("p"), package("q")];
    assert_eq!(
        attrs[0].validate(&attrs).unwrap_err(),
        "Only one p variable can exist, yet 2 were found"
    );
    assert!(attrs[2].validate(&attrs).is_ok());
    assert!(chain("c").validate(&[chain("c")]).is_ok());
}

#[test]
fn validate_all_joins_every_error() {
    let attrs = vec![faucet(), account("wallet")];
    assert_eq!(
        validate_all(&attrs).unwrap_err(),
        " \n faucet requires at least the presence of a chain \n account requires at least the presence of a chain"
    );
    let good = vec![package("wallet"), chain("chain"), faucet(), account("wallet")];
    assert!(validate_all(&good).is_ok());
}

#[test]
fn attributes_sort_packages_first_then_chain_faucets_accounts() {
    let attrs = vec![account("a"), faucet(), package("p1"), chain("c"), package("p2")];
    let sorted = sort_attrs(attrs);
    let orders: Vec<u8> = sorted.iter().map(|a| a.sort_order()).collect();
    assert_eq!(orders, vec![0, 0, 1, 2, 3]);
    match (&sorted[0], &sorted[1]) {
        (RecognizedAttrs::Package(p1), RecognizedAttrs::Package(p2)) => {
            assert_eq!(p1.binding, "p1");
            assert_eq!(p2.binding, "p2");
        }
        _ => panic!("packages should come first, in their order"),
    }
    let again = sort_attrs(sorted.clone());
    let orders_again: Vec<u8> = again.iter().map(|a| a.sort_order()).collect();
    assert_eq!(orders_again, orders);
    assert!(sorted[0] == sorted[1]);
    assert!(sorted[0] != sorted[2]);
}

#[test]
fn chain_binding_is_the_first_chain() {
    assert_eq!(chain_binding(&[package("p")]), None);
    assert_eq!(chain_binding(&[package("p"), chain("mine"), chain("other")]), Some("mine".to_string()));
}
