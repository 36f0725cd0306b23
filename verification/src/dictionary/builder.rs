//! Builders for [`DictionaryInner`].
use vstd::prelude::*;
use vstd::utf8::{decode_utf8, valid_utf8};

use crate::dictionary::character::{chardef_spec, CharProperty};
use crate::dictionary::connector::matrix_spec;
use crate::dictionary::lexicon::{csv_spec, EntrySpec};
use crate::dictionary::unknown::{grouped_rows, lemma_grouped_bounds, unk_cates};
use crate::dictionary::connector::MatrixConnector;
use crate::dictionary::lexicon::Lexicon;
use crate::dictionary::unknown::UnkHandler;
use crate::dictionary::word_idx::LexType;
use crate::dictionary::DictionaryInner;
use crate::errors::{Source, VibratoError};
use crate::text::str_chars;

verus! {

/// Reads `bytes` as UTF-8.
///
/// Wraps `std::str::from_utf8`, which accepts exactly the valid UTF-8
/// sequences; the contract claims that it succeeds iff the bytes are valid
/// UTF-8 and that the string's characters are then the decoded ones.
#[verifier::external_body]
fn utf8_str(bytes: &[u8]) -> (r: Option<&str>)
    ensures
        match r {
            Some(s) => valid_utf8(bytes@) && s@ == decode_utf8(bytes@),
            None => !valid_utf8(bytes@),
        },
{
    match std::str::from_utf8(bytes) {
        Ok(s) => Some(s),
        Err(_) => None,
    }
}

/// Decodes the UTF-8 text of an input file.
pub fn decode_text(bytes: &[u8], source: Source) -> (r: Result<Vec<char>, VibratoError>)
    ensures
        match r {
            Ok(v) => valid_utf8(bytes@) && v@ == decode_utf8(bytes@),
            Err(e) => !valid_utf8(bytes@) && e == VibratoError::InvalidFormat(source),
        },
{
    match utf8_str(bytes) {
        Some(s) => Ok(str_chars(s)),
        None => Err(VibratoError::InvalidFormat(source)),
    }
}

/// Some row of `es` has a connection id beyond `nl` left or `nr` right ids.
pub open spec fn ids_beyond(es: Seq<EntrySpec>, nl: int, nr: int) -> bool {
    exists|i: int| 0 <= i < es.len() && ((#[trigger] es[i]).1.left_id >= nl || es[i].1.right_id >= nr)
}

/// The rows of `unk.def` cannot be read, or name a category that `char.def`
/// does not define.
pub open spec fn unk_rows_bad(text: Seq<char>, categories: Seq<Seq<char>>) -> bool {
    csv_spec(text) is None || csv_spec(text).unwrap().len() > u32::MAX || exists|i: int|
        0 <= i < csv_spec(text).unwrap().len() && forall|c: int|
            0 <= c < categories.len() ==> categories[c] != (#[trigger] csv_spec(text).unwrap()[i]).0
}

/// Builder for a dictionary from system lexicon entries.
pub struct SystemDictionaryBuilder {}

impl SystemDictionaryBuilder {
    /// Creates a new dictionary from the contents of a lexicon file (`lex.csv`),
    /// `matrix.def`, `char.def` and `unk.def`.
    pub fn from_readers(
        system_lexicon: &[u8],
        connector: &[u8],
        char_prop: &[u8],
        unk_handler: &[u8],
    ) -> (r: Result<DictionaryInner, VibratoError>)
        ensures
            match r {
                Ok(d) => {
                    &&& d.wf()
                    &&& d.user_lexicon_spec() is None
                    &&& d.mapper_spec() is None
                    &&& crate::dictionary::connector::matrix_spec(decode_utf8(connector@)) == Some(
                        (
                            d.connector_spec().spec_num_right(),
                            d.connector_spec().spec_num_left(),
                            d.connector_spec().spec_data(),
                        ),
                    )
                    &&& crate::dictionary::lexicon::csv_spec(decode_utf8(system_lexicon@)) matches Some(
                        es,
                    ) && es.len() == d.system_lexicon_spec().spec_len() && forall|i: int|
                        0 <= i < es.len() ==> (#[trigger] es[i]).0
                            == d.system_lexicon_spec().spec_surfaces()[i] && es[i].1
                            == d.system_lexicon_spec().spec_params()[i] && es[i].2
                            == d.system_lexicon_spec().spec_features()[i]
                    &&& chardef_spec(decode_utf8(char_prop@)) == Some(
                        (
                            d.char_prop_spec().spec_ranges(),
                            d.char_prop_spec().spec_default(),
                            d.char_prop_spec().spec_categories(),
                        ),
                    )
                    &&& csv_spec(decode_utf8(unk_handler@)) is Some
                    &&& ({
                        let es = csv_spec(decode_utf8(unk_handler@)).unwrap();
                        let h = d.unk_handler_spec();
                        let cs = unk_cates(d.char_prop_spec().spec_categories(), es);
                        let ord = grouped_rows(cs, d.char_prop_spec().spec_categories().len() as int);
                        &&& h.spec_len() == ord.len()
                        &&& forall|k: int|
                            0 <= k < ord.len() ==> h.spec_cate_ids()[k] == cs[#[trigger] ord[k]]
                                && h.spec_params()[k] == es[ord[k]].1 && h.spec_features()[k]
                                == es[ord[k]].2
                    })
                },
                Err(e) => match e {
                    VibratoError::InvalidFormat(Source::Lexicon) => !valid_utf8(system_lexicon@)
                        || csv_spec(decode_utf8(system_lexicon@)) is None,
                    VibratoError::InvalidFormat(Source::Matrix) => !valid_utf8(connector@)
                        || matrix_spec(decode_utf8(connector@)) is None,
                    VibratoError::InvalidFormat(Source::CharDef) => !valid_utf8(char_prop@)
                        || chardef_spec(decode_utf8(char_prop@)) is None,
                    VibratoError::InvalidFormat(Source::UnkDef) => !valid_utf8(unk_handler@) || (
                    chardef_spec(decode_utf8(char_prop@)) matches Some(p) && unk_rows_bad(
                        decode_utf8(unk_handler@),
                        p.2,
                    )),
                    VibratoError::InvalidArgument(Source::Lexicon) => csv_spec(
                        decode_utf8(system_lexicon@),
                    ) matches Some(es) && (es.len() > u32::MAX || (matrix_spec(
                        decode_utf8(connector@),
                    ) matches Some(m) && ids_beyond(es, m.1, m.0))),
                    VibratoError::InvalidArgument(Source::UnkDef) => csv_spec(
                        decode_utf8(unk_handler@),
                    ) matches Some(es) && matrix_spec(decode_utf8(connector@)) matches Some(m)
                        && ids_beyond(es, m.1, m.0),
                    _ => false,
                },
            },
    {
        let lex_text = decode_text(system_lexicon, Source::Lexicon)?;
        let conn_text = decode_text(connector, Source::Matrix)?;
        let prop_text = decode_text(char_prop, Source::CharDef)?;
        let unk_text = decode_text(unk_handler, Source::UnkDef)?;
        let system_lexicon = Lexicon::from_chars(&lex_text, LexType::System)?;
        let connector = MatrixConnector::from_chars(&conn_text)?;
        let char_prop = CharProperty::from_chars(&prop_text)?;
        let unk_handler = match UnkHandler::from_chars(&unk_text, &char_prop) {
            Ok(h) => h,
            Err(_) => {
                return Err(VibratoError::InvalidFormat(Source::UnkDef));
            },
        };
        if !system_lexicon.verify(connector.num_left(), connector.num_right()) {
            proof {
                let es = csv_spec(lex_text@).unwrap();
                let i = choose|i: int|
                    0 <= i < system_lexicon.spec_len() && !((#[trigger] system_lexicon.spec_params()[i]).left_id
                        < connector.spec_num_left() && system_lexicon.spec_params()[i].right_id
                        < connector.spec_num_right());
                assert(es[i].1 == system_lexicon.spec_params()[i]);
            }
            return Err(VibratoError::InvalidArgument(Source::Lexicon));
        }
        if !unk_handler.verify(connector.num_left(), connector.num_right()) {
            proof {
                let es = csv_spec(unk_text@).unwrap();
                let cs = unk_cates(char_prop.spec_categories(), es);
                let ord = grouped_rows(cs, char_prop.spec_categories().len() as int);
                let k = choose|k: int|
                    0 <= k < unk_handler.spec_len() && !((#[trigger] unk_handler.spec_params()[k]).left_id
                        < connector.spec_num_left() && unk_handler.spec_params()[k].right_id
                        < connector.spec_num_right());
                lemma_grouped_bounds(cs, char_prop.spec_categories().len() as int);
                assert(unk_handler.spec_params()[k] == es[ord[k]].1);
                assert(ids_beyond(es, connector.spec_num_left(), connector.spec_num_right()));
            }
            return Err(VibratoError::InvalidArgument(Source::UnkDef));
        }
        Ok(
            DictionaryInner {
                system_lexicon,
                user_lexicon: None,
                connector,
                mapper: None,
                char_prop,
                unk_handler,
            },
        )
    }
}

} // verus!
