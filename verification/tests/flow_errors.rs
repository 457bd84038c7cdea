use rstl::{DinicError, IsapError, McmfError};

#[test]
fn error_display_should_be_readable() {
    assert_eq!(
        DinicError::InvalidNodeCount { n: 0 }.to_string(),
        "[Dinic] node count must be positive, but got (0)."
    );
    assert_eq!(
        DinicError::NodeOutOfRange { node: 5, n: 3 }.to_string(),
        "[Dinic] node (5) is out of range [0, 3)."
    );
    assert_eq!(
        DinicError::NegativeCapacity { cap: -1 }.to_string(),
        "[Dinic] edge capacity must be non-negative, but got (-1)."
    );
    assert_eq!(
        DinicError::SourceEqualsSink { node: 7 }.to_string(),
        "[Dinic] source and sink must be different, but both are (7)."
    );
    assert_eq!(
        DinicError::NotInitialized.to_string(),
        "[Dinic] algorithm is not initialized."
    );

    assert_eq!(
        IsapError::InvalidNodeCount { n: 0 }.to_string(),
        "[Isap] node count must be positive, but got (0)."
    );
    assert_eq!(
        IsapError::NodeOutOfRange { node: 5, n: 3 }.to_string(),
        "[Isap] node (5) is out of range [0, 3)."
    );
    assert_eq!(
        IsapError::NegativeCapacity { cap: -1 }.to_string(),
        "[Isap] edge capacity must be non-negative, but got (-1)."
    );
    assert_eq!(
        IsapError::SourceEqualsSink { node: 7 }.to_string(),
        "[Isap] source and sink must be different, but both are (7)."
    );
    assert_eq!(
        IsapError::NotInitialized.to_string(),
        "[Isap] algorithm is not initialized."
    );

    assert_eq!(
        McmfError::InvalidInf { inf: 0 }.to_string(),
        "[Mcmf] inf must be positive, but got (0)."
    );
    assert_eq!(
        McmfError::InvalidNodeCount { n: 0 }.to_string(),
        "[Mcmf] node count must be positive, but got (0)."
    );
    assert_eq!(
        McmfError::NodeOutOfRange { node: 5, n: 3 }.to_string(),
        "[Mcmf] node (5) is out of range [0, 3)."
    );
    assert_eq!(
        McmfError::SourceEqualsSink { node: 7 }.to_string(),
        "[Mcmf] source and sink must be different, but both are (7)."
    );
    assert_eq!(
        McmfError::NegativeCapacity { cap: -1 }.to_string(),
        "[Mcmf] edge capacity must be non-negative, but got (-1)."
    );
    assert_eq!(
        McmfError::NotInitialized.to_string(),
        "[Mcmf] algorithm is not initialized."
    );
}
