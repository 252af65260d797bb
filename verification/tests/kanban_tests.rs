use presence_service::kanban::{
    Claims, CreateBoardInput, CreateBoardLabelRequest, CreateCardRequest, CreateColumnRequest,
    LoginRequest, RegisterRequest, UpdateBoardInput, UpdateColumnInput, UploadUrlRequest,
    ValidationError,
};

#[test]
fn board_title_rules() {
    let ok = CreateBoardInput {
        title: "Roadmap".to_string(),
        description: None,
    };
    assert!(ok.validate().is_ok());

    let blank = CreateBoardInput {
        title: "   ".to_string(),
        description: None,
    };
    assert_eq!(blank.validate().unwrap_err(), ValidationError::EmptyTitle);

    let long = CreateBoardInput {
        title: "x".repeat(256),
        description: None,
    };
    assert_eq!(long.validate().unwrap_err(), ValidationError::TitleTooLong);

    let update = UpdateBoardInput {
        title: None,
        description: Some("free-form".to_string()),
    };
    assert!(update.validate().is_ok());
}

#[test]
fn card_and_column_rules() {
    let card = CreateCardRequest {
        title: "Ship it".to_string(),
        description: None,
        position: -1,
    };
    assert_eq!(
        card.validate().unwrap_err(),
        ValidationError::NegativePosition
    );

    let column = CreateColumnRequest {
        title: " ".to_string(),
        position: 0,
    };
    assert_eq!(column.validate().unwrap_err(), ValidationError::EmptyTitle);

    let update = UpdateColumnInput {
        title: Some("Done".to_string()),
        position: Some(-3),
    };
    assert_eq!(
        update.validate().unwrap_err(),
        ValidationError::NegativePosition
    );
}

#[test]
fn label_rules() {
    let ok = CreateBoardLabelRequest {
        name: "bug".to_string(),
        color: "#ff0000".to_string(),
    };
    assert!(ok.validate().is_ok());

    let long_name = CreateBoardLabelRequest {
        name: "n".repeat(51),
        color: "#fff".to_string(),
    };
    assert_eq!(
        long_name.validate().unwrap_err(),
        ValidationError::NameTooLong
    );

    let long_color = CreateBoardLabelRequest {
        name: "bug".to_string(),
        color: "c".repeat(21),
    };
    assert_eq!(
        long_color.validate().unwrap_err(),
        ValidationError::ColorTooLong
    );
}

#[test]
fn upload_rules() {
    let ok = UploadUrlRequest {
        filename: "spec.pdf".to_string(),
        content_type: "application/pdf".to_string(),
        file_size: 1024,
    };
    assert!(ok.validate().is_ok());

    let empty_name = UploadUrlRequest {
        filename: "".to_string(),
        content_type: "application/pdf".to_string(),
        file_size: 1,
    };
    assert_eq!(
        empty_name.validate().unwrap_err(),
        ValidationError::FilenameLength
    );

    let zero = UploadUrlRequest {
        filename: "a".to_string(),
        content_type: "text/plain".to_string(),
        file_size: 0,
    };
    assert_eq!(zero.validate().unwrap_err(), ValidationError::FileSizeRange);
}

#[test]
fn registration_rules() {
    let ok = RegisterRequest {
        email: "alice@example.com".to_string(),
        password: "longenough".to_string(),
        display_name: None,
    };
    assert!(ok.validate().is_ok());

    let bad_email = RegisterRequest {
        email: "not-an-email".to_string(),
        password: "longenough".to_string(),
        display_name: None,
    };
    assert_eq!(
        bad_email.validate().unwrap_err(),
        ValidationError::InvalidEmail
    );

    let short = RegisterRequest {
        email: "alice@example.com".to_string(),
        password: "short".to_string(),
        display_name: None,
    };
    assert_eq!(
        short.validate().unwrap_err(),
        ValidationError::PasswordTooShort
    );

    let long_name = RegisterRequest {
        email: "alice@example.com".to_string(),
        password: "longenough".to_string(),
        display_name: Some("d".repeat(101)),
    };
    assert_eq!(
        long_name.validate().unwrap_err(),
        ValidationError::DisplayNameTooLong
    );

    let login = LoginRequest {
        email: "bob@example.com".to_string(),
        password: "whatever".to_string(),
    };
    assert!(login.validate().is_ok());
}

#[test]
fn access_claims_rules() {
    let claims = Claims {
        sub: "user-1".to_string(),
        email: "alice@example.com".to_string(),
        exp: 2000,
        iat: 1000,
        token_type: "access".to_string(),
    };
    assert!(claims.is_valid_access(1500));
    assert!(!claims.is_valid_access(2000));

    let refresh = Claims {
        sub: "user-1".to_string(),
        email: "alice@example.com".to_string(),
        exp: 2000,
        iat: 1000,
        token_type: "refresh".to_string(),
    };
    assert!(!refresh.is_valid_access(1500));
}
