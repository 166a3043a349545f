//! The corpus document shape: a structured document resolves to a list
//! of training texts. Accepted shapes are a single text, a list, or a
//! keyed collection whose values are texts (non-text values are
//! dropped); anything else is a configuration error.

use vstd::prelude::*;

use crate::errors::RyazonError;

verus! {

/// One value of a list or keyed corpus document: a text, or something
/// that is not a text and is ignored.
#[derive(Debug, Clone)]
pub enum CorpusItem {
    Text(String),
    Other,
}

/// A corpus document, reduced to the shapes training accepts.
#[derive(Debug, Clone)]
pub enum CorpusDoc {
    Text(String),
    List(Vec<CorpusItem>),
    Keyed(Vec<CorpusItem>),
    Unsupported,
}

/// The texts among `items`, in order.
pub open spec fn texts_of(items: Seq<CorpusItem>) -> Seq<Seq<char>>
    decreases items.len(),
{
    if items.len() == 0 {
        Seq::empty()
    } else {
        texts_of(items.drop_last()) + match items.last() {
            CorpusItem::Text(s) => seq![s@],
            CorpusItem::Other => Seq::empty(),
        }
    }
}

/// What a document resolves to: one text gives a singleton list, a
/// list or keyed collection gives its texts in order, and any other
/// shape is rejected.
pub open spec fn corpus_resolution(doc: CorpusDoc, r: Result<Vec<String>, RyazonError>) -> bool {
    match doc {
        CorpusDoc::Text(s) => r matches Ok(v) && v.deep_view() == seq![s@],
        CorpusDoc::List(items) => r matches Ok(v) && v.deep_view() == texts_of(items@),
        CorpusDoc::Keyed(items) => r matches Ok(v) && v.deep_view() == texts_of(items@),
        CorpusDoc::Unsupported => r is Err && r->Err_0 is IoError,
    }
}

/// The texts of the items of a list or keyed document, in order.
fn collect_texts(items: &Vec<CorpusItem>) -> (r: Vec<String>)
    ensures
        r.deep_view() == texts_of(items@),
{
    let mut out: Vec<String> = Vec::new();
    for i in 0..items.len()
        invariant
            out.deep_view() == texts_of(items@.subrange(0, i as int)),
    {
        proof {
            let pre = items@.subrange(0, i as int);
            let cur = items@.subrange(0, i + 1int);
            assert(cur.drop_last() =~= pre);
            assert(cur.last() == items@[i as int]);
        }
        match &items[i] {
            CorpusItem::Text(s) => {
                out.push(s.clone());
                proof {
                    assert(out.deep_view() =~= texts_of(items@.subrange(0, i + 1int)));
                }
            },
            CorpusItem::Other => {
                proof {
                    assert(out.deep_view() =~= texts_of(items@.subrange(0, i + 1int)));
                }
            },
        }
    }
    proof {
        assert(items@.subrange(0, items@.len() as int) =~= items@);
    }
    out
}

/// Reduce a corpus document to the list of training texts, or reject
/// an unsupported shape.
pub fn corpus_texts(doc: CorpusDoc) -> (r: Result<Vec<String>, RyazonError>)
    ensures
        corpus_resolution(doc, r),
{
    match doc {
        CorpusDoc::Text(s) => {
            let mut v: Vec<String> = Vec::new();
            v.push(s);
            proof {
                assert(v.deep_view() =~= seq![v@[0]@]);
            }
            Ok(v)
        },
        CorpusDoc::List(items) => Ok(collect_texts(&items)),
        CorpusDoc::Keyed(items) => Ok(collect_texts(&items)),
        CorpusDoc::Unsupported => Err(
            RyazonError::IoError(unsupported_shape_message()),
        ),
    }
}

/// The message an unsupported document shape reports.
fn unsupported_shape_message() -> (r: String)
    ensures
        r@ == "unsupported JSON value type"@,
{
    let mut r = String::new();
    r.append("unsupported JSON value type");
    r
}

} // verus!
