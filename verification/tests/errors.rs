use meilidb::error::ResponseError;

#[test]
fn constructors_carry_their_message() {
    assert_eq!(
        ResponseError::internal("boom".to_string()),
        ResponseError::Internal("boom".to_string())
    );
    assert_eq!(
        ResponseError::bad_request("bad".to_string()),
        ResponseError::BadRequest("bad".to_string())
    );
    assert_eq!(
        ResponseError::invalid_token("token".to_string()),
        ResponseError::InvalidToken("token".to_string())
    );
    assert_eq!(
        ResponseError::not_found("missing".to_string()),
        ResponseError::NotFound("missing".to_string())
    );
    assert_eq!(
        ResponseError::index_not_found("movies".to_string()),
        ResponseError::IndexNotFound("movies".to_string())
    );
    assert_eq!(
        ResponseError::document_not_found("12".to_string()),
        ResponseError::DocumentNotFound("12".to_string())
    );
    assert_eq!(
        ResponseError::missing_header("X-Key".to_string()),
        ResponseError::MissingHeader("X-Key".to_string())
    );
    assert_eq!(
        ResponseError::bad_parameter("limit".to_string(), "not a number".to_string()),
        ResponseError::BadParameter("limit".to_string(), "not a number".to_string())
    );
    assert_eq!(
        ResponseError::create_index("exists".to_string()),
        ResponseError::CreateIndex("exists".to_string())
    );
}
