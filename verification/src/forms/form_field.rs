//! A field of a form together with its content.
use vstd::prelude::*;
use vstd::utf8::{decode_utf8, valid_utf8};
use crate::forms::form_data::{
    field_read_defined, opt_view, read_field, Field, FieldError, FieldErrorView, FieldView, FormData,
};
use crate::text::string_from_utf8;

verus! {

/// Content kept in memory.
pub struct Memory(Vec<u8>);

impl View for Memory {
    type V = Seq<u8>;

    closed spec fn view(&self) -> Seq<u8> {
        self.0@
    }
}

/// A field of a form: its headers, and its content kept in `S`.
pub struct FormField<S> {
    name: String,
    filename: Option<String>,
    content_type: Option<String>,
    storage: S,
}

impl FormField<()> {
    /// A field from its parts.
    pub fn from_parts<S>(name: String, filename: Option<String>, content_type: Option<String>, storage: S) -> (r:
        FormField<S>)
        ensures
            r.spec_name() == name@,
            r.spec_filename() == opt_view(filename),
            r.spec_content_type() == opt_view(content_type),
            r.spec_storage() == storage,
    {
        FormField { name, filename, content_type, storage }
    }

    /// Reads the content of a field of `form` into memory.
    pub fn memory(field: Field, form: &mut FormData) -> (r: Result<FormField<Memory>, FieldError>)
        requires
            old(form).wf(),
            field_read_defined(old(form)@),
        ensures
            final(form).wf(),
            final(form)@ == read_field(old(form)@, Seq::empty()).0,
            match (r, read_field(old(form)@, Seq::empty()).1) {
                (Ok(f), Ok(b)) => f.spec_name() == field@.name && f.spec_filename() == field@.filename
                    && f.spec_content_type() == field@.content_type && f.spec_storage()@ == b,
                (Err(e), Err(x)) => e@ == x,
                _ => false,
            },
    {
        let name = field.name().to_owned();
        let filename = match field.filename() {
            Some(f) => Some(f.to_owned()),
            None => None,
        };
        let content_type = match field.content_type() {
            Some(t) => Some(t.to_owned()),
            None => None,
        };
        let bytes = field.bytes(form)?;
        Ok(FormField { name, filename, content_type, storage: Memory(bytes) })
    }
}

impl<S> FormField<S> {
    pub closed spec fn spec_name(&self) -> Seq<char> {
        self.name@
    }

    pub closed spec fn spec_filename(&self) -> Option<Seq<char>> {
        opt_view(self.filename)
    }

    pub closed spec fn spec_content_type(&self) -> Option<Seq<char>> {
        opt_view(self.content_type)
    }

    pub closed spec fn spec_storage(&self) -> S {
        self.storage
    }

    /// The name of the field.
    pub fn name(&self) -> (r: &str)
        ensures
            r@ == self.spec_name(),
    {
        self.name.as_str()
    }

    /// The file name, if the field is a file.
    pub fn filename(&self) -> (r: Option<&str>)
        ensures
            match r {
                Some(t) => self.spec_filename() == Some(t@),
                None => self.spec_filename() is None,
            },
    {
        match &self.filename {
            Some(t) => Some(t.as_str()),
            None => None,
        }
    }

    /// The content type, if the field is a file.
    pub fn content_type(&self) -> (r: Option<&str>)
        ensures
            match r {
                Some(t) => self.spec_content_type() == Some(t@),
                None => self.spec_content_type() is None,
            },
    {
        match &self.content_type {
            Some(t) => Some(t.as_str()),
            None => None,
        }
    }

    /// The storage of the content.
    pub fn reader(self) -> (r: S)
        ensures
            r == self.spec_storage(),
    {
        self.storage
    }
}

impl FormField<Memory> {
    /// The content.
    pub fn bytes(self) -> (r: Vec<u8>)
        ensures
            r@ == self.spec_storage()@,
    {
        self.storage.0
    }

    /// The content as UTF-8 text.
    pub fn text(self) -> (r: Result<String, FieldError>)
        ensures
            match r {
                Ok(t) => valid_utf8(self.spec_storage()@) && t@ == decode_utf8(self.spec_storage()@),
                Err(e) => !valid_utf8(self.spec_storage()@) && e@ == FieldErrorView::Utf8Error,
            },
    {
        match string_from_utf8(self.storage.0) {
            Some(t) => Ok(t),
            None => Err(FieldError::Utf8Error),
        }
    }
}

impl Field {
    /// Reads the content of this field into memory.
    pub fn to_memory(self, form: &mut FormData) -> (r: Result<FormField<Memory>, FieldError>)
        requires
            old(form).wf(),
            field_read_defined(old(form)@),
        ensures
            final(form).wf(),
            final(form)@ == read_field(old(form)@, Seq::empty()).0,
            match (r, read_field(old(form)@, Seq::empty()).1) {
                (Ok(f), Ok(b)) => f.spec_name() == self@.name && f.spec_filename() == self@.filename
                    && f.spec_content_type() == self@.content_type && f.spec_storage()@ == b,
                (Err(e), Err(x)) => e@ == x,
                _ => false,
            },
    {
        FormField::memory(self, form)
    }
}

} // verus!
