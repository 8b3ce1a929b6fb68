//! The data model of the store: identities, secret versions and the derived
//! listing types.

use vstd::prelude::*;

verus! {

/// A named key pair: the unit of authentication and authorization.
pub struct Identity {
    pub id: String,
    pub name: String,
    pub email: String,
}

#[verifier::ext_equal]
pub ghost struct IdentityView {
    pub id: Seq<char>,
    pub name: Seq<char>,
    pub email: Seq<char>,
}

impl View for Identity {
    type V = IdentityView;

    open spec fn view(&self) -> IdentityView {
        IdentityView { id: self.id@, name: self.name@, email: self.email@ }
    }
}

/// One named value of a secret version (a password, a user name).
pub struct Property {
    pub name: String,
    pub value: String,
}

#[verifier::ext_equal]
pub ghost struct PropertyView {
    pub name: Seq<char>,
    pub value: Seq<char>,
}

impl View for Property {
    type V = PropertyView;

    open spec fn view(&self) -> PropertyView {
        PropertyView { name: self.name@, value: self.value@ }
    }
}

/// A named binary attachment of a secret version.
pub struct Attachment {
    pub name: String,
    pub content: Vec<u8>,
}

#[verifier::ext_equal]
pub ghost struct AttachmentView {
    pub name: Seq<char>,
    pub content: Seq<u8>,
}

impl View for Attachment {
    type V = AttachmentView;

    open spec fn view(&self) -> AttachmentView {
        AttachmentView { name: self.name@, content: self.content@ }
    }
}

/// A decrypted secret record. The logical secret id groups the versions of
/// one secret; the highest timestamp wins.
pub struct SecretVersion {
    pub secret_id: String,
    pub timestamp: u64,
    pub name: String,
    pub secret_type: String,
    pub tags: Vec<String>,
    pub urls: Vec<String>,
    pub properties: Vec<Property>,
    pub attachments: Vec<Attachment>,
    pub deleted: bool,
}

#[verifier::ext_equal]
pub ghost struct SecretVersionView {
    pub secret_id: Seq<char>,
    pub timestamp: u64,
    pub name: Seq<char>,
    pub secret_type: Seq<char>,
    pub tags: Seq<Seq<char>>,
    pub urls: Seq<Seq<char>>,
    pub properties: Seq<PropertyView>,
    pub attachments: Seq<AttachmentView>,
    pub deleted: bool,
}

/// The views of a vector of strings.
pub open spec fn str_seq_view(v: Seq<String>) -> Seq<Seq<char>> {
    Seq::new(v.len(), |i: int| v[i]@)
}

/// The views of a vector of properties.
pub open spec fn prop_seq_view(v: Seq<Property>) -> Seq<PropertyView> {
    Seq::new(v.len(), |i: int| v[i]@)
}

/// The views of a vector of attachments.
pub open spec fn att_seq_view(v: Seq<Attachment>) -> Seq<AttachmentView> {
    Seq::new(v.len(), |i: int| v[i]@)
}

impl View for SecretVersion {
    type V = SecretVersionView;

    open spec fn view(&self) -> SecretVersionView {
        SecretVersionView {
            secret_id: self.secret_id@,
            timestamp: self.timestamp,
            name: self.name@,
            secret_type: self.secret_type@,
            tags: str_seq_view(self.tags@),
            urls: str_seq_view(self.urls@),
            properties: prop_seq_view(self.properties@),
            attachments: att_seq_view(self.attachments@),
            deleted: self.deleted,
        }
    }
}

/// A reference to one stored version of a secret.
pub struct SecretVersionRef {
    pub block_id: String,
    pub timestamp: u64,
}

#[verifier::ext_equal]
pub ghost struct SecretVersionRefView {
    pub block_id: Seq<char>,
    pub timestamp: u64,
}

impl View for SecretVersionRef {
    type V = SecretVersionRefView;

    open spec fn view(&self) -> SecretVersionRefView {
        SecretVersionRefView { block_id: self.block_id@, timestamp: self.timestamp }
    }
}

/// A secret as the store hands it out: the chosen current version and the
/// references to all stored versions.
pub struct Secret {
    pub id: String,
    pub current: SecretVersion,
    pub current_block_id: String,
    pub versions: Vec<SecretVersionRef>,
}

/// A listing entry: the display fields cached in the index, so that
/// filtering needs no decryption.
pub struct SecretEntry {
    pub id: String,
    pub name: String,
    pub secret_type: String,
    pub tags: Vec<String>,
    pub deleted: bool,
}

#[verifier::ext_equal]
pub ghost struct SecretEntryView {
    pub id: Seq<char>,
    pub name: Seq<char>,
    pub secret_type: Seq<char>,
    pub tags: Seq<Seq<char>>,
    pub deleted: bool,
}

impl View for SecretEntry {
    type V = SecretEntryView;

    open spec fn view(&self) -> SecretEntryView {
        SecretEntryView {
            id: self.id@,
            name: self.name@,
            secret_type: self.secret_type@,
            tags: str_seq_view(self.tags@),
            deleted: self.deleted,
        }
    }
}

/// The result of a filtered listing, sorted by `(name, id)`.
pub struct SecretList {
    pub entries: Vec<SecretEntry>,
}

/// Which secrets a listing returns: name substring, tag membership, type
/// equality, and whether deleted secrets are wanted.
pub struct SecretListFilter {
    pub name: Option<String>,
    pub tag: Option<String>,
    pub secret_type: Option<String>,
    pub deleted: bool,
}

#[verifier::ext_equal]
pub ghost struct SecretListFilterView {
    pub name: Option<Seq<char>>,
    pub tag: Option<Seq<char>>,
    pub secret_type: Option<Seq<char>>,
    pub deleted: bool,
}

impl View for SecretListFilter {
    type V = SecretListFilterView;

    open spec fn view(&self) -> SecretListFilterView {
        SecretListFilterView {
            name: match self.name {
                Some(ref n) => Some(n@),
                None => None,
            },
            tag: match self.tag {
                Some(ref t) => Some(t@),
                None => None,
            },
            secret_type: match self.secret_type {
                Some(ref t) => Some(t@),
                None => None,
            },
            deleted: self.deleted,
        }
    }
}

impl SecretListFilter {
    /// The filter that matches every non-deleted secret.
    pub fn all() -> (r: SecretListFilter)
        ensures
            r.name is None,
            r.tag is None,
            r.secret_type is None,
            !r.deleted,
    {
        SecretListFilter { name: None, tag: None, secret_type: None, deleted: false }
    }
}

/// The lock state of a store as reported to clients.
pub struct Status {
    pub locked: bool,
    pub unlocked_by: Option<String>,
    pub autolock_at: Option<u64>,
}

/// The display label of a well-known property name.
pub open spec fn spec_property_label(name: Seq<char>) -> Seq<char> {
    if name == "password"@ {
        "Password"@
    } else if name == "username"@ {
        "Username"@
    } else if name == "totpUrl"@ {
        "OTP"@
    } else if name == "notes"@ {
        "Notes"@
    } else if name == "sid"@ {
        "SID"@
    } else {
        name
    }
}

/// Map a well-known property name to its display label.
pub fn property_label(name: &str) -> (r: String)
    ensures
        r@ == spec_property_label(name@),
{
    if crate::util::str_eq(name, "password") {
        String::from_str("Password")
    } else if crate::util::str_eq(name, "username") {
        String::from_str("Username")
    } else if crate::util::str_eq(name, "totpUrl") {
        String::from_str("OTP")
    } else if crate::util::str_eq(name, "notes") {
        String::from_str("Notes")
    } else if crate::util::str_eq(name, "sid") {
        String::from_str("SID")
    } else {
        name.to_owned()
    }
}

} // verus!
