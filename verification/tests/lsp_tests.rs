use argvtype::lsp::{run_server, LspError};

#[test]
fn run_server_returns_not_implemented() {
    let result = run_server();
    assert!(result.is_err());
    assert!(matches!(result.unwrap_err(), LspError::NotImplemented));
}

#[test]
fn not_implemented_message() {
    assert_eq!(LspError::NotImplemented.message(), "LSP server is not yet implemented");
}
