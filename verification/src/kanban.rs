//! Request types of the Kanban collaborator and their validation rules.
//!
//! The HTTP handlers and database calls live outside the library; they hand
//! these plain request values in and enforce the rules stated here before
//! any persistent work: titles must be non-blank and bounded, positions
//! non-negative, label names and colours bounded, registration data sound,
//! and access-token claims current.

use vstd::prelude::*;
use vstd::string::StringExecFns;
use vstd::utf8::encode_utf8;

verus! {

/// Why a request was rejected.
#[derive(Debug, Clone, PartialEq, Eq, Structural)]
pub enum ValidationError {
    EmptyTitle,
    TitleTooLong,
    NegativePosition,
    EmptyName,
    NameTooLong,
    EmptyColor,
    ColorTooLong,
    InvalidEmail,
    PasswordTooShort,
    DisplayNameTooLong,
    FilenameLength,
    ContentTypeLength,
    FileSizeRange,
}

/// What `str::trim` leaves of a string.
pub uninterp spec fn trimmed(s: Seq<char>) -> Seq<char>;

/// Relies on `str::trim`: the input without leading and trailing
/// whitespace, a function of the characters alone, never longer than the
/// input.
#[verifier::external_body]
fn trim_of(s: &str) -> (r: &str)
    ensures
        r@ == trimmed(s@),
        r@.len() <= s@.len(),
{
    s.trim()
}

/// Whether validator accepts the string as an email address.
pub uninterp spec fn is_email(s: Seq<char>) -> bool;

/// Relies on validator's `ValidateEmail` for `&str`: the HTML5 email check,
/// a function of the characters alone.
#[verifier::external_body]
fn email_ok(s: &str) -> (r: bool)
    ensures
        r == is_email(s@),
{
    validator::ValidateEmail::validate_email(&s)
}

/// The check every title goes through: non-blank, at most 255 bytes.
pub open spec fn title_check(title: Seq<char>) -> Result<(), ValidationError> {
    if trimmed(title).len() == 0 {
        Err(ValidationError::EmptyTitle)
    } else if encode_utf8(title).len() > 255 {
        Err(ValidationError::TitleTooLong)
    } else {
        Ok(())
    }
}

/// The check a label name goes through: non-blank, at most 50 bytes.
pub open spec fn label_name_check(name: Seq<char>) -> Result<(), ValidationError> {
    if trimmed(name).len() == 0 {
        Err(ValidationError::EmptyName)
    } else if encode_utf8(name).len() > 50 {
        Err(ValidationError::NameTooLong)
    } else {
        Ok(())
    }
}

/// The check a label colour goes through: non-blank, at most 20 bytes.
pub open spec fn label_color_check(color: Seq<char>) -> Result<(), ValidationError> {
    if trimmed(color).len() == 0 {
        Err(ValidationError::EmptyColor)
    } else if encode_utf8(color).len() > 20 {
        Err(ValidationError::ColorTooLong)
    } else {
        Ok(())
    }
}

/// Validate one title.
fn check_title(title: &String) -> (r: Result<(), ValidationError>)
    ensures
        r == title_check(title@),
{
    if trim_of(title.as_str()).is_empty() {
        Err(ValidationError::EmptyTitle)
    } else if title.as_str().as_bytes().len() > 255 {
        Err(ValidationError::TitleTooLong)
    } else {
        Ok(())
    }
}

/// Input for creating a board.
#[derive(Debug, Clone)]
pub struct CreateBoardInput {
    pub title: String,
    pub description: Option<String>,
}

impl CreateBoardInput {
    /// The board service's input check.
    pub fn validate(&self) -> (r: Result<(), ValidationError>)
        ensures
            r == title_check(self.title@),
    {
        check_title(&self.title)
    }
}

/// Input for updating a board; absent fields stay as they are.
#[derive(Debug, Clone)]
pub struct UpdateBoardInput {
    pub title: Option<String>,
    pub description: Option<String>,
}

impl UpdateBoardInput {
    /// A present title must pass the title check.
    pub fn validate(&self) -> (r: Result<(), ValidationError>)
        ensures
            r == match self.title {
                Some(t) => title_check(t@),
                None => Ok::<(), ValidationError>(()),
            },
    {
        match &self.title {
            Some(t) => check_title(t),
            None => Ok(()),
        }
    }
}

/// Input for locking or unlocking a board.
#[derive(Debug, Clone)]
pub struct SetLockStateInput {
    pub password: String,
    pub is_locked: bool,
}

/// Request body for creating a card.
#[derive(Debug, Clone)]
pub struct CreateCardRequest {
    pub title: String,
    pub description: Option<String>,
    pub position: i32,
}

impl CreateCardRequest {
    /// The card service's input check: title rules, then a non-negative
    /// position.
    pub fn validate(&self) -> (r: Result<(), ValidationError>)
        ensures
            r == (if title_check(self.title@) is Err {
                title_check(self.title@)
            } else if self.position < 0 {
                Err::<(), ValidationError>(ValidationError::NegativePosition)
            } else {
                Ok::<(), ValidationError>(())
            }),
    {
        let t = check_title(&self.title);
        if t.is_err() {
            t
        } else if self.position < 0 {
            Err(ValidationError::NegativePosition)
        } else {
            Ok(())
        }
    }
}

/// Request body for creating a column.
#[derive(Debug, Clone)]
pub struct CreateColumnRequest {
    pub title: String,
    pub position: i32,
}

impl CreateColumnRequest {
    /// The column service's input check.
    pub fn validate(&self) -> (r: Result<(), ValidationError>)
        ensures
            r == (if title_check(self.title@) is Err {
                title_check(self.title@)
            } else if self.position < 0 {
                Err::<(), ValidationError>(ValidationError::NegativePosition)
            } else {
                Ok::<(), ValidationError>(())
            }),
    {
        let t = check_title(&self.title);
        if t.is_err() {
            t
        } else if self.position < 0 {
            Err(ValidationError::NegativePosition)
        } else {
            Ok(())
        }
    }
}

/// Input for updating a column.
#[derive(Debug, Clone)]
pub struct UpdateColumnInput {
    pub title: Option<String>,
    pub position: Option<i32>,
}

impl UpdateColumnInput {
    /// Present fields must pass their checks.
    pub fn validate(&self) -> (r: Result<(), ValidationError>)
        ensures
            r == ({
                let tc = match self.title {
                    Some(t) => title_check(t@),
                    None => Ok::<(), ValidationError>(()),
                };
                if tc is Err {
                    tc
                } else if self.position matches Some(p) && p < 0 {
                    Err::<(), ValidationError>(ValidationError::NegativePosition)
                } else {
                    Ok::<(), ValidationError>(())
                }
            }),
    {
        let tc = match &self.title {
            Some(t) => check_title(t),
            None => Ok(()),
        };
        if tc.is_err() {
            return tc;
        }
        match self.position {
            Some(p) if p < 0 => Err(ValidationError::NegativePosition),
            _ => Ok(()),
        }
    }
}

/// Request body for creating a board label.
#[derive(Debug, Clone)]
pub struct CreateBoardLabelRequest {
    pub name: String,
    pub color: String,
}

impl CreateBoardLabelRequest {
    /// The label service's input check: name rules, then colour rules.
    pub fn validate(&self) -> (r: Result<(), ValidationError>)
        ensures
            r == (if label_name_check(self.name@) is Err {
                label_name_check(self.name@)
            } else {
                label_color_check(self.color@)
            }),
    {
        if trim_of(self.name.as_str()).is_empty() {
            Err(ValidationError::EmptyName)
        } else if self.name.as_str().as_bytes().len() > 50 {
            Err(ValidationError::NameTooLong)
        } else if trim_of(self.color.as_str()).is_empty() {
            Err(ValidationError::EmptyColor)
        } else if self.color.as_str().as_bytes().len() > 20 {
            Err(ValidationError::ColorTooLong)
        } else {
            Ok(())
        }
    }
}

/// Request body for updating a board label.
#[derive(Debug, Clone)]
pub struct UpdateBoardLabelRequest {
    pub name: Option<String>,
    pub color: Option<String>,
}

impl UpdateBoardLabelRequest {
    /// Present fields must pass their checks.
    pub fn validate(&self) -> (r: Result<(), ValidationError>)
        ensures
            r == ({
                let nc = match self.name {
                    Some(n) => label_name_check(n@),
                    None => Ok::<(), ValidationError>(()),
                };
                if nc is Err {
                    nc
                } else {
                    match self.color {
                        Some(c) => label_color_check(c@),
                        None => Ok::<(), ValidationError>(()),
                    }
                }
            }),
    {
        let nc = match &self.name {
            Some(n) => {
                if trim_of(n.as_str()).is_empty() {
                    Err(ValidationError::EmptyName)
                } else if n.as_str().as_bytes().len() > 50 {
                    Err(ValidationError::NameTooLong)
                } else {
                    Ok(())
                }
            },
            None => Ok(()),
        };
        if nc.is_err() {
            return nc;
        }
        match &self.color {
            Some(c) => {
                if trim_of(c.as_str()).is_empty() {
                    Err(ValidationError::EmptyColor)
                } else if c.as_str().as_bytes().len() > 20 {
                    Err(ValidationError::ColorTooLong)
                } else {
                    Ok(())
                }
            },
            None => Ok(()),
        }
    }
}

/// The board-label input as the persistence layer sees it; same rules as
/// the request body.
#[derive(Debug, Clone)]
pub struct UpdateBoardLabelInput {
    pub name: Option<String>,
    pub color: Option<String>,
}

/// Request for a pre-signed upload slot.
#[derive(Debug, Clone)]
pub struct UploadUrlRequest {
    pub filename: String,
    pub content_type: String,
    pub file_size: i32,
}

impl UploadUrlRequest {
    /// Filename 1..=255 bytes, content type 1..=100 bytes, size at least 1.
    pub fn validate(&self) -> (r: Result<(), ValidationError>)
        ensures
            r == (if !(1 <= encode_utf8(self.filename@).len() <= 255) {
                Err::<(), ValidationError>(ValidationError::FilenameLength)
            } else if !(1 <= encode_utf8(self.content_type@).len() <= 100) {
                Err::<(), ValidationError>(ValidationError::ContentTypeLength)
            } else if self.file_size < 1 {
                Err::<(), ValidationError>(ValidationError::FileSizeRange)
            } else {
                Ok::<(), ValidationError>(())
            }),
    {
        let fl = self.filename.as_str().as_bytes().len();
        let cl = self.content_type.as_str().as_bytes().len();
        if fl < 1 || fl > 255 {
            Err(ValidationError::FilenameLength)
        } else if cl < 1 || cl > 100 {
            Err(ValidationError::ContentTypeLength)
        } else if self.file_size < 1 {
            Err(ValidationError::FileSizeRange)
        } else {
            Ok(())
        }
    }
}

/// Registration input.
#[derive(Debug, Clone)]
pub struct RegisterRequest {
    pub email: String,
    pub password: String,
    pub display_name: Option<String>,
}

impl RegisterRequest {
    /// Email must pass the email check, the password must be at least 8
    /// bytes, a present display name at most 100 bytes.
    pub fn validate(&self) -> (r: Result<(), ValidationError>)
        ensures
            r == (if !is_email(self.email@) {
                Err::<(), ValidationError>(ValidationError::InvalidEmail)
            } else if encode_utf8(self.password@).len() < 8 {
                Err::<(), ValidationError>(ValidationError::PasswordTooShort)
            } else if self.display_name matches Some(d) && encode_utf8(d@).len() > 100 {
                Err::<(), ValidationError>(ValidationError::DisplayNameTooLong)
            } else {
                Ok::<(), ValidationError>(())
            }),
    {
        if !email_ok(self.email.as_str()) {
            return Err(ValidationError::InvalidEmail);
        }
        if self.password.as_str().as_bytes().len() < 8 {
            return Err(ValidationError::PasswordTooShort);
        }
        match &self.display_name {
            Some(d) => {
                if d.as_str().as_bytes().len() > 100 {
                    Err(ValidationError::DisplayNameTooLong)
                } else {
                    Ok(())
                }
            },
            None => Ok(()),
        }
    }
}

/// Login input.
#[derive(Debug, Clone)]
pub struct LoginRequest {
    pub email: String,
    pub password: String,
}

impl LoginRequest {
    /// Email must pass the email check.
    pub fn validate(&self) -> (r: Result<(), ValidationError>)
        ensures
            r == (if is_email(self.email@) {
                Ok::<(), ValidationError>(())
            } else {
                Err::<(), ValidationError>(ValidationError::InvalidEmail)
            }),
    {
        if email_ok(self.email.as_str()) {
            Ok(())
        } else {
            Err(ValidationError::InvalidEmail)
        }
    }
}

/// A refresh-token exchange request.
#[derive(Debug, Clone)]
pub struct RefreshRequest {
    pub refresh_token: String,
}

/// The token claims the auth collaborator signs.
#[derive(Debug, Clone)]
pub struct Claims {
    /// Subject: the user's id, as text.
    pub sub: String,
    /// The user's email.
    pub email: String,
    /// Expiry, seconds since the epoch.
    pub exp: i64,
    /// Issue time, seconds since the epoch.
    pub iat: i64,
    /// `access` or `refresh`.
    pub token_type: String,
}

/// Whether claims admit access at time `now`: an access token that has not
/// expired.
pub open spec fn claims_valid_access(c: &Claims, now: i64) -> bool {
    c.token_type@ == "access"@ && c.exp > now
}

impl Claims {
    /// The token-type and expiry checks the auth middleware applies, at a
    /// given current time.
    pub fn is_valid_access(&self, now: i64) -> (r: bool)
        ensures
            r == claims_valid_access(self, now),
    {
        let access = String::from_str("access");
        self.token_type == access && self.exp > now
    }
}

} // verus!
