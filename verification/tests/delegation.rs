use cgp_playground::delegation::{DelegatedImpl, DelegationUserStruct};
use cgp_playground::{delegate_example, CanDelegate, Delegate};

#[test]
fn delegate_example_answers_delegated() {
    assert_eq!(delegate_example(), "delegated");
}

#[test]
fn the_context_answers_as_the_provider_at_the_end_of_the_chain() {
    let context = DelegationUserStruct;
    assert_eq!(context.delegate(), "delegated");
    assert_eq!(<DelegatedImpl as Delegate<DelegationUserStruct>>::delegate(&context), "delegated");
    assert_eq!(context.delegate(), context.delegate());
}

#[test]
fn the_provider_serves_any_context() {
    assert_eq!(<DelegatedImpl as Delegate<u8>>::delegate(&7), "delegated");
    assert_eq!(<DelegatedImpl as Delegate<String>>::delegate(&String::new()), "delegated");
}
