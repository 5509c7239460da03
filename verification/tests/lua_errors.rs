use cobble::lua::value::{get_error_message, get_original_error, LuaError, LuaKind, LuaValue};

#[test]
fn test_get_original_error_from_callback_error() {
    let original_error = LuaError::Other(String::from("test error"));

    let error = LuaError::Callback {
        traceback: String::from("test traceback"),
        cause: Box::new(LuaError::Other(String::from("test error"))),
    };

    assert_eq!(get_original_error(&error).message(), original_error.message());
}

#[test]
fn test_get_error_message_unwraps_error_chain() {
    let original_error = LuaError::Other(String::from("test error"));

    let error = LuaError::Callback {
        traceback: String::from("test traceback"),
        cause: Box::new(LuaError::Other(String::from("test error"))),
    };
    let value = LuaValue { kind: LuaKind::Error(error), text: Err(String::from("no text")), debug: String::from("Error") };

    assert_eq!(get_error_message(&value), original_error.message())
}

#[test]
fn error_message_of_context_chain_is_the_innermost() {
    let error = LuaError::WithContext {
        context: String::from("while running"),
        cause: Box::new(LuaError::Callback {
            traceback: String::from("tb"),
            cause: Box::new(LuaError::Other(String::from("boom"))),
        }),
    };
    assert_eq!(error.message(), "boom");
}

#[test]
fn error_message_of_a_string_or_other_value() {
    let s = LuaValue { kind: LuaKind::Str, text: Ok(String::from("failed")), debug: String::from("String(\"failed\")") };
    assert_eq!(get_error_message(&s), "failed");
    let bad = LuaValue { kind: LuaKind::Str, text: Err(String::from("invalid utf-8")), debug: String::from("String(..)") };
    assert_eq!(get_error_message(&bad), "<error reading message>");
    let n = LuaValue { kind: LuaKind::Integer(3), text: Ok(String::from("3")), debug: String::from("Integer(3)") };
    assert_eq!(get_error_message(&n), "Integer(3)");
}
