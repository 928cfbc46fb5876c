use laurus::search_plan::{
    check_embedding, check_vector_request, filter_ends_search, finish_search, limit_hits,
    plan_embedding, plan_search, unfused_hits,
    EmbedError, EmbedStep, PayloadKind, SearchPlan, VectorCheckError, VectorRequestError,
};
use laurus::vector_request::VectorScoreMode;

#[test]
fn vector_requests_are_checked_in_order() {
    let ws = VectorScoreMode::WeightedSum;
    assert_eq!(check_vector_request(false, false, 10, true, ws), Err(VectorRequestError::NothingToSearch));
    assert_eq!(check_vector_request(true, false, 0, false, VectorScoreMode::LateInteraction), Ok(false));
    assert_eq!(check_vector_request(true, false, 5, false, ws), Err(VectorRequestError::OverfetchBelowOne));
    assert_eq!(
        check_vector_request(false, true, 5, true, VectorScoreMode::LateInteraction),
        Err(VectorRequestError::LateInteractionUnsupported)
    );
    assert_eq!(check_vector_request(true, true, 5, true, VectorScoreMode::MaxSim), Ok(true));
    assert!(filter_ends_search(Some(0), false));
    assert!(!filter_ends_search(Some(0), true));
    assert!(!filter_ends_search(Some(3), false));
    assert!(!filter_ends_search(None, false));
}

#[test]
fn hybrid_search_plans() {
    assert_eq!(plan_search(Some(0), true, true, 10, 10), None);
    assert_eq!(
        plan_search(None, true, true, 10, 5),
        Some(SearchPlan {
            lexical_limit: Some(20),
            lexical_with_filter: false,
            vector_limit: Some(20),
            vector_restricted: false,
            fuse: true,
        })
    );
    assert_eq!(
        plan_search(Some(4), true, true, 10, 50),
        Some(SearchPlan {
            lexical_limit: Some(20),
            lexical_with_filter: true,
            vector_limit: Some(50),
            vector_restricted: true,
            fuse: true,
        })
    );
    assert_eq!(
        plan_search(Some(4), false, true, 10, 5),
        Some(SearchPlan {
            lexical_limit: None,
            lexical_with_filter: false,
            vector_limit: Some(5),
            vector_restricted: true,
            fuse: false,
        })
    );
    assert_eq!(
        plan_search(None, true, false, 10, 5),
        Some(SearchPlan {
            lexical_limit: Some(10),
            lexical_with_filter: false,
            vector_limit: None,
            vector_restricted: false,
            fuse: false,
        })
    );
}

#[test]
fn embedding_steps_and_checks() {
    assert_eq!(plan_embedding(false, Some(3), false, PayloadKind::Vector, true, true), Err(EmbedError::NotRegistered));
    assert_eq!(plan_embedding(true, None, false, PayloadKind::Text, false, false), Ok(EmbedStep::StoreEmpty));
    assert_eq!(
        plan_embedding(true, Some(3), true, PayloadKind::Text, true, false),
        Ok(EmbedStep::EmbedText { keep_source: true })
    );
    assert_eq!(plan_embedding(true, Some(3), true, PayloadKind::Text, false, true), Err(EmbedError::TextUnsupported));
    assert_eq!(plan_embedding(true, Some(3), false, PayloadKind::Bytes, true, false), Err(EmbedError::ImageUnsupported));
    assert_eq!(plan_embedding(true, Some(3), false, PayloadKind::Bytes, false, true), Ok(EmbedStep::EmbedImage));
    assert_eq!(plan_embedding(true, Some(3), false, PayloadKind::Vector, false, false), Ok(EmbedStep::UseGiven));
    assert_eq!(
        check_embedding(3, 2, false),
        Err(VectorCheckError::DimensionMismatch { expected: 3, actual: 2 })
    );
    assert_eq!(check_embedding(3, 3, false), Err(VectorCheckError::InvalidValues));
    assert_eq!(check_embedding(3, 3, true), Ok(()));
}

#[test]
fn vector_searches_finish_or_are_refused() {
    assert_eq!(finish_search(0, 0, false), Err(VectorRequestError::NoQueryForFields));
    assert_eq!(finish_search(0, 0, true), Ok(false));
    assert_eq!(finish_search(0, 3, true), Ok(true));
    assert_eq!(finish_search(2, 0, false), Ok(true));
    assert_eq!(finish_search(2, 0, true), Ok(true));
}

#[test]
fn results_are_cut_to_the_limit() {
    assert_eq!(limit_hits(vec![5u64, 3, 9], 2), vec![5, 3]);
    assert_eq!(limit_hits(vec![5u64, 3, 9], 7), vec![5, 3, 9]);
    assert_eq!(limit_hits(vec![5u64, 3, 9], 0), Vec::<u64>::new());
    assert_eq!(unfused_hits(vec![(1u64, 0.9f32), (2, 0.5)], vec![(7, 3.0)], 1), vec![(1, 0.9)]);
    assert_eq!(unfused_hits(Vec::new(), vec![(7u64, 3.0f32), (8, 2.0), (9, 1.0)], 2), vec![(7, 3.0), (8, 2.0)]);
    assert_eq!(unfused_hits(Vec::<u64>::new(), Vec::new(), 4), Vec::<u64>::new());
}
