use vstd::prelude::*;
use crate::errors::DecodeErrorKind;

verus! {

/// One (name, value) tag of a bundle item.
#[derive(Debug, PartialEq)]
pub struct BundleTag {
    pub name: String,
    pub value: String,
}

impl View for BundleTag {
    type V = (Seq<char>, Seq<char>);

    open spec fn view(&self) -> (Seq<char>, Seq<char>) {
        (self.name@, self.value@)
    }
}

/// What the external tag codec yields for a blob: the ordered (name, value)
/// string pairs of a blob conforming to the fixed array-of-two-string-records
/// schema, or nothing where the blob does not conform.
pub uninterp spec fn avro_tag_decode(blob: Seq<u8>) -> Option<Seq<(Seq<char>, Seq<char>)>>;

/// Relies on apache_avro::from_avro_datum with the fixed
/// array-of-(name,value)-records schema: whether the blob decodes, and to
/// which pairs, is a function of the blob alone; a non-conforming blob is
/// rejected whole.
#[verifier::external_body]
fn avro_decode_tags(blob: &Vec<u8>) -> (r: Option<Vec<BundleTag>>)
    ensures
        r is Some <==> avro_tag_decode(blob@) is Some,
        r matches Some(tags) ==> avro_tag_decode(blob@) == Some(
            tags@.map_values(|t: BundleTag| t@),
        ),
{
    let schema = apache_avro::Schema::parse_str(
        r#"{"type":"array","items":{"type":"record","name":"Tag","fields":[{"name":"name","type":"string"},{"name":"value","type":"string"}]}}"#,
    ).ok()?;
    let value = apache_avro::from_avro_datum(&schema, &mut blob.as_slice(), Some(&schema)).ok()?;
    let apache_avro::types::Value::Array(items) = value else { return None };
    items.into_iter().map(|item| match item {
        apache_avro::types::Value::Record(fields) => {
            match <[(String, apache_avro::types::Value); 2]>::try_from(fields) {
                Ok([(_, apache_avro::types::Value::String(name)), (_, apache_avro::types::Value::String(value))]) => Some(BundleTag { name, value }),
                _ => None,
            }
        },
        _ => None,
    }).collect::<Option<Vec<BundleTag>>>()
}

/// Decode a tag blob into its ordered tag list: the whole list, or a schema
/// failure, never a partial result.
pub fn parse_tag_list(blob: &Vec<u8>) -> (r: Result<Vec<BundleTag>, DecodeErrorKind>)
    ensures
        match r {
            Ok(tags) => avro_tag_decode(blob@) == Some(tags@.map_values(|t: BundleTag| t@)),
            Err(e) => e == DecodeErrorKind::SchemaDecodeError && avro_tag_decode(blob@) is None,
        },
{
    match avro_decode_tags(blob) {
        Some(tags) => Ok(tags),
        None => Err(DecodeErrorKind::SchemaDecodeError),
    }
}

} // verus!
