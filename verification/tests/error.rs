use swapx::error::SwapxError;

#[test]
fn each_error_kind_names_itself() {
    assert_eq!(SwapxError::Io("denied".into()).message(), "IO error: denied");
    assert_eq!(SwapxError::Yaml("bad".into()).message(), "YAML error: bad");
    assert_eq!(SwapxError::Regex("unclosed".into()).message(), "Regex error: unclosed");
    assert_eq!(SwapxError::Dialoguer("eof".into()).message(), "Prompt error: eof");
    assert_eq!(SwapxError::Config("no".into()).message(), "Config error: no");
}
