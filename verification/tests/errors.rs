use rotonda_store::errors::PrefixStoreError;

#[test]
fn error_messages_are_the_fixed_sentences() {
    assert_eq!(
        PrefixStoreError::NodeCreationMaxRetryError.message(),
        "Error: Maximum number of retries for node creation reached."
    );
    assert_eq!(PrefixStoreError::NodeNotFound.message(), "Error: Node not found.");
    assert_eq!(PrefixStoreError::StoreNotReadyError.message(), "Error: Store isn't ready yet.");
    assert_eq!(
        PrefixStoreError::PathSelectionOutdated.message(),
        "Error: The Path Selection process is based on outdated paths."
    );
    assert_eq!(PrefixStoreError::PrefixNotFound.message(), "Error: The Prefix cannot be found.");
}
