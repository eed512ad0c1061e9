//! Tests for the fail-fast pair combinator.

use star::{Ready, RuntimeHandle, TryJoin};

type Part = Ready<Result<(), String>>;

#[test]
fn try_join_succeeds_when_both_succeed() {
    let mut runtime: RuntimeHandle<TryJoin<Part, Part>> = RuntimeHandle::new();
    let got = runtime
        .block_on(TryJoin::new(Ready::new(Ok(())), Ready::new(Ok(()))))
        .expect("no sys error");
    assert_eq!(got, Ok(()));
}

#[test]
fn try_join_fails_with_the_first_error() {
    let mut runtime: RuntimeHandle<TryJoin<Part, Part>> = RuntimeHandle::new();
    let got = runtime
        .block_on(TryJoin::new(
            Ready::new(Err(String::from("watcher broke"))),
            Ready::new(Ok(())),
        ))
        .expect("no sys error");
    assert_eq!(got, Err(String::from("watcher broke")));

    let got = runtime
        .block_on(TryJoin::new(
            Ready::new(Ok(())),
            Ready::new(Err(String::from("writer broke"))),
        ))
        .expect("no sys error");
    assert_eq!(got, Err(String::from("writer broke")));
}
