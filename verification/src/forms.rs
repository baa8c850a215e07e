//! What a request carries, and what is made of it before anything is stored
//! or read: the cursor of a user page, the draft of a new status, the new
//! summary of a profile.

use crate::clock::unix_millis;
use crate::generator::{IdError, IdGenerator};
use crate::identifier::{node_of, Identifier};
use crate::pagination::{page_of, PaginationCursor, Window};
use crate::partition::{descending, Partition};
use vstd::prelude::*;

verus! {

/// The number of statuses on one user page.
pub const PAGE_SIZE: u32 = 10;

/// What a field of a form stands for: nothing where it was left empty,
/// else its text.
pub open spec fn given(text: Seq<char>) -> Option<Seq<char>> {
    if text.len() == 0 {
        None
    } else {
        Some(text)
    }
}

/// The text that an optional string holds.
pub open spec fn text_of(field: Option<String>) -> Option<Seq<char>> {
    match field {
        Some(text) => Some(text@),
        None => None,
    }
}

/// Turns the text of a form's field into a value to store: nothing for an
/// empty field, so that the store holds no empty strings.
pub fn non_empty(text: String) -> (field: Option<String>)
    ensures
        text_of(field) == given(text@),
{
    if text.as_str().is_empty() {
        None
    } else {
        Some(text)
    }
}

/// The query of a user page.
#[derive(Debug, Clone, Copy, PartialEq, Eq)]
pub struct UserPageParams {
    /// The cursor: only statuses with an identifier below it are shown.
    /// Without one the page starts at the newest status.
    pub max_id: Option<Identifier>,
}

impl UserPageParams {
    /// The query of the first page, which has no cursor.
    pub fn first() -> (params: Self)
        ensures
            params.max_id is None,
    {
        UserPageParams { max_id: None }
    }

    /// The query of the page under the cursor `max_id`.
    pub fn before(max_id: Identifier) -> (params: Self)
        ensures
            params.max_id == Some(max_id),
    {
        UserPageParams { max_id: Some(max_id) }
    }

    /// The page of `statuses` that this query asks for: the newest
    /// [`PAGE_SIZE`] statuses under the cursor, and the cursor of the next
    /// older page where there is one.
    pub fn page<'a, T>(&self, statuses: &'a Partition<T>) -> (window: Window<'a, T>)
        ensures
            (window.items@, window.previous_page_id) == page_of(
                statuses@,
                self.max_id,
                PAGE_SIZE as nat,
            ),
            descending(window.items@),
    {
        PaginationCursor::page(statuses, self.max_id, PAGE_SIZE)
    }
}

/// What the form for a new status carries.
#[derive(Debug, Clone, PartialEq, Eq)]
pub struct CreateStatusForm {
    /// The text of the status.
    pub content: String,
    /// The content warning; empty where the author gave none.
    pub content_warning: String,
}

/// A status that is ready to be stored.
#[derive(Debug, Clone, PartialEq, Eq)]
pub struct NewStatus {
    /// The key of the status.
    pub id: Identifier,
    /// When the status was written, in milliseconds since the Unix epoch.
    pub created_at: i64,
    /// The text of the status.
    pub text: String,
    /// The content warning, if the author gave one.
    pub content_warning: Option<String>,
    /// The account that wrote the status.
    pub account_id: i64,
}

impl CreateStatusForm {
    /// The status that this form describes, under the identifier `id`,
    /// written at `created_at` by the account `account_id`. An empty content
    /// warning is none.
    pub fn into_status(self, id: Identifier, created_at: i64, account_id: i64) -> (status:
        NewStatus)
        ensures
            status.id == id,
            status.created_at == created_at,
            status.account_id == account_id,
            status.text@ == self.content@,
            text_of(status.content_warning) == given(self.content_warning@),
    {
        NewStatus {
            id,
            created_at,
            text: self.content,
            content_warning: non_empty(self.content_warning),
            account_id,
        }
    }

    /// Makes the status that this form describes: takes a fresh identifier
    /// from `generator` and the time of writing from the system clock.
    ///
    /// It fails where the generator does, and then the generator is as it
    /// was. The identifier is above all that the generator issued before.
    pub fn stamp(self, generator: &mut IdGenerator, account_id: i64) -> (outcome: Result<
        NewStatus,
        IdError,
    >)
        ensures
            exists|now: int|
                #![trigger old(generator)@.verdict(now)]
                {
                    &&& final(generator)@ == old(generator)@.after(now)
                    &&& match old(generator)@.verdict(now) {
                        Ok(id) => outcome is Ok && outcome->Ok_0.id == id,
                        Err(e) => outcome == Err::<NewStatus, IdError>(e),
                    }
                },
            outcome is Err ==> final(generator)@ == old(generator)@,
            outcome matches Ok(status) ==> {
                &&& old(generator)@.horizon() <= status.id < final(generator)@.horizon()
                &&& node_of(status.id) == old(generator)@.node
                &&& status.account_id == account_id
                &&& status.text@ == self.content@
                &&& text_of(status.content_warning) == given(self.content_warning@)
            },
            final(generator)@.wf(),
    {
        match generator.next() {
            Ok(id) => {
                let created_at: i64 = unix_millis();
                Ok(self.into_status(id, created_at, account_id))
            },
            Err(e) => Err(e),
        }
    }
}

/// What the form for a profile carries.
#[derive(Debug, Clone, PartialEq, Eq)]
pub struct UpdateProfileForm {
    /// The new summary; empty to clear it.
    pub summary: String,
}

impl UpdateProfileForm {
    /// The summary to store: none where the form's field was left empty.
    pub fn into_summary(self) -> (summary: Option<String>)
        ensures
            text_of(summary) == given(self.summary@),
    {
        non_empty(self.summary)
    }
}

} // verus!
