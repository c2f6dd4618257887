use gossip_glomers::protocol::{BroadcastRequest, BroadcastResponse, Payload};

#[test]
fn payload_request_extracts_only_requests() {
    let p: Payload<BroadcastRequest, BroadcastResponse> = Payload::Request(BroadcastRequest::Read);
    assert!(matches!(p.request(), Some(BroadcastRequest::Read)));
    let p: Payload<BroadcastRequest, BroadcastResponse> =
        Payload::Response(BroadcastResponse::TopologyOk);
    assert!(p.request().is_none());
}

#[test]
fn payload_response_extracts_only_responses() {
    let p: Payload<BroadcastRequest, BroadcastResponse> =
        Payload::Response(BroadcastResponse::BroadcastOk);
    assert!(matches!(p.response(), Some(BroadcastResponse::BroadcastOk)));
    let p: Payload<BroadcastRequest, BroadcastResponse> =
        Payload::Request(BroadcastRequest::Broadcast { message: 1 });
    assert!(p.response().is_none());
}
