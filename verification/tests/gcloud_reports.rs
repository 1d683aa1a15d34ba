use example_cli::gcloud::auth::Token;
use example_cli::gcloud::storage::Buckets;
use example_cli::gcloud::{
    host_call, HostCall, mask_token, print_bucket_lines, resource_report, AccessToken, Auth, Bucket, Reply, Resource,
    Storage,
};

fn bucket(name: &str, location: Option<&str>) -> Bucket {
    Bucket {
        name: name.to_string(),
        location: location.map(String::from),
        storage_class: Some("STANDARD".to_string()),
        time_created: None,
    }
}

fn buckets(cmd: Buckets) -> Resource {
    Resource::Storage(Storage::Buckets(cmd))
}

#[test]
fn short_tokens_are_hidden_entirely() {
    assert_eq!(mask_token(""), "***");
    assert_eq!(mask_token("abcd"), "***");
}

#[test]
fn long_tokens_show_four_bytes() {
    assert_eq!(mask_token("abcde"), "abcd***");
    assert_eq!(mask_token("ya29.a0AfH6SMB"), "ya29***");
    assert_eq!(mask_token("abé123"), "abé***");
}

#[test]
fn bucket_lines_skip_missing_fields() {
    let lines = print_bucket_lines(&bucket("b1", Some("US")));
    assert_eq!(lines, vec!["  name: b1", "  location: US", "  storage-class: STANDARD"]);
    let lines = print_bucket_lines(&bucket("b2", None));
    assert_eq!(lines, vec!["  name: b2", "  storage-class: STANDARD"]);
}

#[test]
fn token_report() {
    let r = Resource::Auth(Auth::Token(Token::Get { scopes: vec!["s".to_string()] }));
    let reply = Reply::Token(Ok(AccessToken {
        access_token: "secret-token".to_string(),
        token_type: "Bearer".to_string(),
        expires_in: 3599,
    }));
    let rep = resource_report(&r, &reply);
    assert_eq!(
        rep.out,
        vec!["Token:", "  access-token: secr***", "  token-type: Bearer", "  expires-in: 3599"]
    );
    assert!(rep.err.is_empty());
}

#[test]
fn error_report_goes_to_stderr() {
    let r = buckets(Buckets::Get { name: "x".to_string() });
    let rep = resource_report(&r, &Reply::Bucket(Err("NotFound".to_string())));
    assert!(rep.out.is_empty());
    assert_eq!(rep.err, vec!["Error: NotFound"]);
}

#[test]
fn list_report_with_buckets() {
    let r = buckets(Buckets::List { project: "p1".to_string() });
    let reply = Reply::Buckets(Ok(vec![bucket("a", None), bucket("b", Some("EU"))]));
    let rep = resource_report(&r, &reply);
    assert_eq!(
        rep.out,
        vec![
            "Buckets in project 'p1':",
            "  name: a",
            "  storage-class: STANDARD",
            "",
            "  name: b",
            "  location: EU",
            "  storage-class: STANDARD",
            "",
        ]
    );
}

#[test]
fn empty_list_report() {
    let r = buckets(Buckets::List { project: "p1".to_string() });
    let rep = resource_report(&r, &Reply::Buckets(Ok(vec![])));
    assert_eq!(rep.out, vec!["Buckets in project 'p1':", "  (none)"]);
}

#[test]
fn get_create_delete_reports() {
    let get = resource_report(&buckets(Buckets::Get { name: "a".to_string() }), &Reply::Bucket(Ok(bucket("a", None))));
    assert_eq!(get.out, vec!["Bucket:", "  name: a", "  storage-class: STANDARD"]);
    let create = resource_report(
        &buckets(Buckets::Create { project: "p".to_string(), name: "a".to_string() }),
        &Reply::Bucket(Ok(bucket("a", None))),
    );
    assert_eq!(create.out, vec!["Created bucket:", "  name: a", "  storage-class: STANDARD"]);
    let delete = resource_report(&buckets(Buckets::Delete { name: "a".to_string() }), &Reply::Deleted(Ok(())));
    assert_eq!(delete.out, vec!["Deleted bucket 'a'"]);
    assert!(delete.err.is_empty());
}

#[test]
fn host_calls_carry_the_arguments() {
    let r = Resource::Auth(Auth::Token(Token::Get { scopes: vec!["a".to_string(), "b".to_string()] }));
    assert!(matches!(host_call(&r), HostCall::GetToken { scopes } if scopes == vec!["a", "b"]));
    let r = buckets(Buckets::List { project: "p".to_string() });
    assert!(matches!(host_call(&r), HostCall::ListBuckets { project } if project == "p"));
    let r = buckets(Buckets::Get { name: "n".to_string() });
    assert!(matches!(host_call(&r), HostCall::GetBucket { name } if name == "n"));
    let r = buckets(Buckets::Create { project: "p".to_string(), name: "n".to_string() });
    assert!(matches!(host_call(&r), HostCall::CreateBucket { project, name } if project == "p" && name == "n"));
    let r = buckets(Buckets::Delete { name: "n".to_string() });
    assert!(matches!(host_call(&r), HostCall::DeleteBucket { name } if name == "n"));
}
