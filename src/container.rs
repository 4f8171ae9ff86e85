use vstd::prelude::*;

use std::io::{Cursor, Read};
use zip::result::ZipError;
use zip::ZipArchive;

verus! {

#[verifier::external_type_specification]
#[verifier::external_body]
#[verifier::reject_recursive_types(T)]
pub struct ExCursor<T>(Cursor<T>);

#[verifier::external_type_specification]
#[verifier::external_body]
pub struct ExIoError(std::io::Error);

#[verifier::external_type_specification]
#[verifier::external_body]
#[verifier::reject_recursive_types(R)]
pub struct ExZipArchive<R>(ZipArchive<R>);

#[verifier::external_type_specification]
#[verifier::external_body]
pub struct ExZipError(ZipError);

/// Whether `zip::ZipArchive::new` reads a container's directory from the
/// bytes.
pub uninterp spec fn container_opens(data: Seq<u8>) -> bool;

/// What `zip::ZipArchive::file_names` lists for the container held in the
/// bytes: each entry's name in index order, `None` where it cannot be
/// decoded.
pub uninterp spec fn zip_entry_names(data: Seq<u8>) -> Seq<Option<Seq<char>>>;

/// What reading the named entry of the container held in the bytes gives:
/// `None` where `zip::ZipArchive::by_name` finds no entry (or cannot open
/// it), `Some(None)` where its content cannot be read as UTF-8 text, else
/// `Some(Some(text))`.
pub uninterp spec fn zip_entry_text(data: Seq<u8>, name: Seq<char>) -> Option<Option<Seq<char>>>;

/// An office container, opened over the bytes of a document and kept with
/// them.
pub struct Container<'a> {
    archive: ZipArchive<Cursor<&'a [u8]>>,
    data: &'a [u8],
}

impl<'a> Container<'a> {
    /// The bytes the container was opened over.
    pub closed spec fn source(&self) -> Seq<u8> {
        self.data@
    }
}

/// The names of entries as mathematical values.
pub open spec fn name_views(v: Seq<Option<String>>) -> Seq<Option<Seq<char>>> {
    v.map_values(
        |o: Option<String>|
            match o {
                Some(s) => Some(s@),
                None => None,
            },
    )
}

/// Relies on `zip::ZipArchive::new`: reads the container's directory from
/// the bytes, or reports why they are no container; which of the two
/// depends on the bytes alone.
#[verifier::external_body]
pub(crate) fn open_container<'a>(data: &'a [u8]) -> (r: Result<Container<'a>, ZipError>)
    ensures
        r is Ok <==> container_opens(data@),
        r matches Ok(c) ==> c.source() == data@,
{
    ZipArchive::new(Cursor::new(data)).map(|archive| Container { archive, data })
}

/// Relies on `zip::ZipArchive::file_names`: the names of the entries in the
/// order of the container's index, `None` for a name that cannot be
/// decoded; they depend on the bytes alone.
#[verifier::external_body]
pub(crate) fn entry_names(container: &Container) -> (r: Vec<Option<String>>)
    ensures
        name_views(r@) == zip_entry_names(container.source()),
{
    container.archive.file_names().map(|n| n.ok().map(|s| s.into_owned())).collect()
}

/// Relies on `zip::ZipArchive::by_name` and on reading the entry it returns
/// to a `String` (`Read::read_to_string`): `None` where the container has
/// no entry of that name (or cannot open it), else the entry's text or the
/// error met reading it; the outcome depends on the bytes and the name
/// alone.
#[verifier::external_body]
pub(crate) fn read_entry(container: &mut Container, name: &str) -> (r: Option<
    Result<String, std::io::Error>,
>)
    ensures
        final(container).source() == old(container).source(),
        match r {
            None => zip_entry_text(old(container).source(), name@) is None,
            Some(Ok(t)) => zip_entry_text(old(container).source(), name@) == Some(Some(t@)),
            Some(Err(_)) => zip_entry_text(old(container).source(), name@) == Some(
                None::<Seq<char>>,
            ),
        },
{
    match container.archive.by_name(name) {
        Ok(mut file) => {
            let mut text = String::new();
            Some(file.read_to_string(&mut text).map(|_| text))
        },
        Err(_) => None,
    }
}

} // verus!
