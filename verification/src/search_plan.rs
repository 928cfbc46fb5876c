//! The decisions of the search and embedding entry points: which searches
//! run with which limits, which requests are refused, and what is done
//! with a payload before it is stored. The searches, the embedders and the
//! score arithmetic are the caller's; these functions take what they need
//! to know of them as plain values.

use vstd::prelude::*;
use crate::seqs::take_up_to;
use crate::vector_request::VectorScoreMode;

verus! {

/// Why a vector search request is refused.
#[derive(Debug, Clone, Copy, PartialEq, Eq, Structural)]
pub enum VectorRequestError {
    /// The request has neither a query vector nor a lexical query.
    NothingToSearch,
    /// The overfetch factor is below 1.
    OverfetchBelowOne,
    /// Late-interaction scoring is not supported yet.
    LateInteractionUnsupported,
    /// No query vector applies to any of the target fields, and there is
    /// no lexical query.
    NoQueryForFields,
}

/// Checks a vector search request before any search runs, in the order the
/// searcher checks it: a request with nothing to search is refused; one
/// with limit 0 needs no search (`Ok(false)`: the result is empty); then an
/// overfetch factor below 1 and late-interaction scoring are refused;
/// otherwise the search runs (`Ok(true)`).
pub fn check_vector_request(
    has_query_vectors: bool,
    has_lexical_query: bool,
    limit: usize,
    overfetch_at_least_one: bool,
    score_mode: VectorScoreMode,
) -> (r: Result<bool, VectorRequestError>)
    ensures
        r == if !has_query_vectors && !has_lexical_query {
            Err(VectorRequestError::NothingToSearch)
        } else if limit == 0 {
            Ok(false)
        } else if !overfetch_at_least_one {
            Err(VectorRequestError::OverfetchBelowOne)
        } else if score_mode is LateInteraction {
            Err(VectorRequestError::LateInteractionUnsupported)
        } else {
            Ok(true)
        },
{
    if !has_query_vectors && !has_lexical_query {
        return Err(VectorRequestError::NothingToSearch);
    }
    if limit == 0 {
        return Ok(false);
    }
    if !overfetch_at_least_one {
        return Err(VectorRequestError::OverfetchBelowOne);
    }
    match score_mode {
        VectorScoreMode::LateInteraction => Err(VectorRequestError::LateInteractionUnsupported),
        _ => Ok(true),
    }
}

/// Whether a vector search ends at once with no hits: its metadata filter
/// lets no document through (`allowed` is the number of documents it lets
/// through, if it filters at all) and there is no lexical query to run.
pub fn filter_ends_search(allowed: Option<usize>, has_lexical_query: bool) -> (b: bool)
    ensures
        b == (allowed == Some(0usize) && !has_lexical_query),
{
    match allowed {
        Some(n) => n == 0 && !has_lexical_query,
        None => false,
    }
}

/// How a vector search ends, once its fields were searched
/// (`fields_with_queries` of them had a query vector that applies) and its
/// lexical query, if any, ran (`lexical_hits` hits). When no vector search
/// ran and the lexical query found nothing, or there was none, the search
/// ends: with no hits where there was a lexical query (`Ok(false)`), else
/// refused. Otherwise the hits are merged (`Ok(true)`).
pub fn finish_search(fields_with_queries: usize, lexical_hits: usize, has_lexical_query: bool) -> (r:
    Result<bool, VectorRequestError>)
    ensures
        r == if fields_with_queries == 0 && lexical_hits == 0 {
            if has_lexical_query {
                Ok(false)
            } else {
                Err(VectorRequestError::NoQueryForFields)
            }
        } else {
            Ok(true)
        },
{
    let vector_searched = fields_with_queries > 0;
    let lexical_searched = lexical_hits > 0 || (has_lexical_query && vector_searched);
    if !vector_searched && !lexical_searched {
        if has_lexical_query {
            return Ok(false);
        }
        return Err(VectorRequestError::NoQueryForFields);
    }
    Ok(true)
}

/// The first `limit` hits of a ranked list: how a search's ranked hits
/// are cut to its limit.
pub fn limit_hits<T>(hits: Vec<T>, limit: usize) -> (r: Vec<T>)
    ensures
        r@ == take_up_to(hits@, Some(limit as int)),
{
    let mut h = hits;
    h.truncate(limit);
    proof {
        if limit <= hits@.len() {
            assert(hits@.subrange(0, limit as int) =~= hits@.take(limit as int));
        }
    }
    h
}

/// The result of a hybrid search whose hits are not fused: the first
/// `limit` vector hits when the vector search found any, else the first
/// `limit` lexical hits, in their ranked order.
pub fn unfused_hits<T>(vector_hits: Vec<T>, lexical_hits: Vec<T>, limit: usize) -> (r: Vec<T>)
    ensures
        r@ == take_up_to(
            if vector_hits@.len() > 0 {
                vector_hits@
            } else {
                lexical_hits@
            },
            Some(limit as int),
        ),
{
    if vector_hits.len() > 0 {
        limit_hits(vector_hits, limit)
    } else {
        limit_hits(lexical_hits, limit)
    }
}

/// What a hybrid search runs.
#[derive(Debug, Clone, Copy, PartialEq, Eq, Structural)]
pub struct SearchPlan {
    /// The number of hits the lexical search asks for, when it runs.
    pub lexical_limit: Option<usize>,
    /// Whether the lexical query is joined with the filter query (both
    /// must match).
    pub lexical_with_filter: bool,
    /// The number of hits the vector search asks for, when it runs.
    pub vector_limit: Option<usize>,
    /// Whether the vector search is restricted to the documents the filter
    /// query matched.
    pub vector_restricted: bool,
    /// Whether the two hit lists are fused (and the fused ranking cut to
    /// the limit with [`limit_hits`]); otherwise [`unfused_hits`] gives the
    /// result.
    pub fuse: bool,
}

/// The plan of a hybrid search for `limit` results. `filter_hits` is the
/// number of documents the filter query matched, when the request has one;
/// `vector_limit` is the vector request's own limit. When the filter
/// matched nothing there is nothing to run (`None`: the result is empty).
/// Otherwise the lexical search runs when there is a lexical query, asking
/// for twice the limit when a vector search runs too; the vector search
/// runs when there is a vector request, asking for at least twice the limit
/// when there is a lexical query; and the hits are fused when both run.
pub fn plan_search(
    filter_hits: Option<usize>,
    has_lexical: bool,
    has_vector: bool,
    limit: usize,
    vector_limit: usize,
) -> (p: Option<SearchPlan>)
    requires
        2 * limit <= usize::MAX,
    ensures
        filter_hits == Some(0usize) ==> p is None,
        filter_hits != Some(0usize) ==> p == Some(
            SearchPlan {
                lexical_limit: if has_lexical {
                    Some(if has_vector { (2 * limit) as usize } else { limit })
                } else {
                    None
                },
                lexical_with_filter: has_lexical && filter_hits is Some,
                vector_limit: if has_vector {
                    Some(
                        if has_lexical && vector_limit < 2 * limit {
                            (2 * limit) as usize
                        } else {
                            vector_limit
                        },
                    )
                } else {
                    None
                },
                vector_restricted: has_vector && filter_hits is Some,
                fuse: has_lexical && has_vector,
            },
        ),
{
    if filter_hits == Some(0usize) {
        return None;
    }
    let filtered = filter_hits.is_some();
    let lexical_limit = if has_lexical {
        Some(if has_vector { limit * 2 } else { limit })
    } else {
        None
    };
    let vlimit = if has_vector {
        Some(if has_lexical && vector_limit < limit * 2 { limit * 2 } else { vector_limit })
    } else {
        None
    };
    Some(
        SearchPlan {
            lexical_limit,
            lexical_with_filter: has_lexical && filtered,
            vector_limit: vlimit,
            vector_restricted: has_vector && filtered,
            fuse: has_lexical && has_vector,
        },
    )
}

/// What a payload to store in a vector field holds.
#[derive(Debug, Clone, Copy, PartialEq, Eq, Structural)]
pub enum PayloadKind {
    /// Text for the field's embedder.
    Text,
    /// Bytes (an image) for the field's embedder.
    Bytes,
    /// A vector given as it is.
    Vector,
}

/// What is done with a payload.
#[derive(Debug, Clone, Copy, PartialEq, Eq, Structural)]
pub enum EmbedStep {
    /// The field keeps no vectors: an empty vector is stored.
    StoreEmpty,
    /// The text is embedded; its source text is kept too when the field is
    /// also indexed lexically.
    EmbedText { keep_source: bool },
    /// The bytes are embedded as an image.
    EmbedImage,
    /// The given vector is stored.
    UseGiven,
}

/// Why a payload cannot be embedded.
#[derive(Debug, Clone, Copy, PartialEq, Eq, Structural)]
pub enum EmbedError {
    /// No vector field of that name is registered.
    NotRegistered,
    /// The field's embedder does not embed text.
    TextUnsupported,
    /// The field's embedder does not embed images.
    ImageUnsupported,
}

/// The step for a payload of kind `kind` in a field: refused when the field
/// is not registered; an empty vector when the field has no vector
/// configuration (`dimension` is `None`); text and bytes go to the field's
/// embedder when it supports them; a given vector is used as it is.
pub fn plan_embedding(
    registered: bool,
    dimension: Option<usize>,
    lexical: bool,
    kind: PayloadKind,
    supports_text: bool,
    supports_image: bool,
) -> (r: Result<EmbedStep, EmbedError>)
    ensures
        r == if !registered {
            Err(EmbedError::NotRegistered)
        } else if dimension is None {
            Ok(EmbedStep::StoreEmpty)
        } else {
            match kind {
                PayloadKind::Text => if supports_text {
                    Ok(EmbedStep::EmbedText { keep_source: lexical })
                } else {
                    Err(EmbedError::TextUnsupported)
                },
                PayloadKind::Bytes => if supports_image {
                    Ok(EmbedStep::EmbedImage)
                } else {
                    Err(EmbedError::ImageUnsupported)
                },
                PayloadKind::Vector => Ok(EmbedStep::UseGiven),
            }
        },
{
    if !registered {
        return Err(EmbedError::NotRegistered);
    }
    if dimension.is_none() {
        return Ok(EmbedStep::StoreEmpty);
    }
    match kind {
        PayloadKind::Text => if supports_text {
            Ok(EmbedStep::EmbedText { keep_source: lexical })
        } else {
            Err(EmbedError::TextUnsupported)
        },
        PayloadKind::Bytes => if supports_image {
            Ok(EmbedStep::EmbedImage)
        } else {
            Err(EmbedError::ImageUnsupported)
        },
        PayloadKind::Vector => Ok(EmbedStep::UseGiven),
    }
}

/// Why an embedded or given vector is refused.
#[derive(Debug, Clone, Copy, PartialEq, Eq, Structural)]
pub enum VectorCheckError {
    /// The vector does not have the field's dimension.
    DimensionMismatch { expected: usize, actual: usize },
    /// The vector holds a value that is not finite.
    InvalidValues,
}

/// Checks a vector of `produced` values for a field of dimension
/// `dimension`: first its dimension, then that every value is finite
/// (`all_finite`, which the caller tells).
pub fn check_embedding(dimension: usize, produced: usize, all_finite: bool) -> (r: Result<
    (),
    VectorCheckError,
>)
    ensures
        r == if produced != dimension {
            Err(VectorCheckError::DimensionMismatch { expected: dimension, actual: produced })
        } else if !all_finite {
            Err(VectorCheckError::InvalidValues)
        } else {
            Ok(())
        },
{
    if produced != dimension {
        Err(VectorCheckError::DimensionMismatch { expected: dimension, actual: produced })
    } else if !all_finite {
        Err(VectorCheckError::InvalidValues)
    } else {
        Ok(())
    }
}

} // verus!
