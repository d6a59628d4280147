//! The emails the services send, as messages for the mail worker.

use vstd::prelude::*;

verus! {

/// An email: what it is about and to whom it goes.
#[derive(Debug)]
pub struct Email {
    pub kind: EmailKind,
    pub to: String,
}

/// What an email is about, with what it needs to say.
#[derive(Debug)]
pub enum EmailKind {
    RegisterCode { code: String },
    RecoveryRequest { link: String },
    ChangedNotification { changed_field: ChangedField },
    NewLogin { ip: String, user_agent: String },
    SuspiciousRefresh { ip: String, user_agent: String },
    RefreshRulesUpdate { ip: String, user_agent: String },
}

/// The field of an account that changed.
#[derive(Debug, Clone, Copy, PartialEq, Eq, Structural)]
pub enum ChangedField {
    Password,
    Uid,
    Email,
}

/// The name of the variant of `k`.
pub open spec fn kind_name(k: EmailKind) -> Seq<char> {
    match k {
        EmailKind::ChangedNotification { .. } => "ChangedNotification"@,
        EmailKind::RegisterCode { .. } => "RegisterCode"@,
        EmailKind::RecoveryRequest { .. } => "RecoveryRequest"@,
        EmailKind::NewLogin { .. } => "NewLogin"@,
        EmailKind::SuspiciousRefresh { .. } => "SuspiciousRefresh"@,
        EmailKind::RefreshRulesUpdate { .. } => "RefreshRulesUpdate"@,
    }
}

/// The name of the field `f`.
pub open spec fn field_name(f: ChangedField) -> Seq<char> {
    match f {
        ChangedField::Email => "Email"@,
        ChangedField::Uid => "Uid"@,
        ChangedField::Password => "Password"@,
    }
}

impl EmailKind {
    /// The name of the variant, as the mail worker knows it.
    pub fn name(&self) -> (r: &'static str)
        ensures
            r@ == kind_name(*self),
    {
        match self {
            EmailKind::ChangedNotification { .. } => "ChangedNotification",
            EmailKind::RegisterCode { .. } => "RegisterCode",
            EmailKind::RecoveryRequest { .. } => "RecoveryRequest",
            EmailKind::NewLogin { .. } => "NewLogin",
            EmailKind::SuspiciousRefresh { .. } => "SuspiciousRefresh",
            EmailKind::RefreshRulesUpdate { .. } => "RefreshRulesUpdate",
        }
    }
}

impl ChangedField {
    /// The name of the field.
    pub fn to_str(&self) -> (r: &'static str)
        ensures
            r@ == field_name(*self),
    {
        match self {
            ChangedField::Email => "Email",
            ChangedField::Uid => "Uid",
            ChangedField::Password => "Password",
        }
    }
}

impl Email {
    /// The notice to `email` that `field` of the account changed.
    pub fn changed(email: String, field: ChangedField) -> (r: Self)
        ensures
            r.to == email,
            r.kind == (EmailKind::ChangedNotification { changed_field: field }),
    {
        Email { kind: EmailKind::ChangedNotification { changed_field: field }, to: email }
    }
}

} // verus!
