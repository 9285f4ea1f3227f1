//! The fixed byte strings of the replies.
use vstd::prelude::*;

verus! {

/// `+PONG\r\n`
pub open spec fn pong_msg() -> Seq<u8> {
    seq![43u8, 80, 79, 78, 71, 13, 10]
}

/// `+PONG\r\n`
pub fn pong() -> (r: Vec<u8>)
    ensures
        r@ == pong_msg(),
{
    let v: Vec<u8> = vec![43u8, 80, 79, 78, 71, 13, 10];
    assert(v@ == pong_msg());
    v
}

/// `*2\r\n$4\r\npong\r\n`
pub open spec fn pubsub_pong_msg() -> Seq<u8> {
    seq![42u8, 50, 13, 10, 36, 52, 13, 10, 112, 111, 110, 103, 13, 10]
}

/// `*2\r\n$4\r\npong\r\n`
pub fn pubsub_pong() -> (r: Vec<u8>)
    ensures
        r@ == pubsub_pong_msg(),
{
    let v: Vec<u8> = vec![42u8, 50, 13, 10, 36, 52, 13, 10, 112, 111, 110, 103, 13, 10];
    assert(v@ == pubsub_pong_msg());
    v
}

/// `$0\r\n\r\n`
pub open spec fn empty_bulk_msg() -> Seq<u8> {
    seq![36u8, 48, 13, 10, 13, 10]
}

/// `$0\r\n\r\n`
pub fn empty_bulk() -> (r: Vec<u8>)
    ensures
        r@ == empty_bulk_msg(),
{
    let v: Vec<u8> = vec![36u8, 48, 13, 10, 13, 10];
    assert(v@ == empty_bulk_msg());
    v
}

/// `-ERR wrong number of arguments\r\n`
pub open spec fn wrong_args_msg() -> Seq<u8> {
    seq![45u8, 69, 82, 82, 32, 119, 114, 111, 110, 103, 32, 110, 117, 109, 98, 101, 114, 32, 111, 102, 32, 97, 114, 103, 117, 109, 101, 110, 116, 115, 13, 10]
}

/// `-ERR wrong number of arguments\r\n`
pub fn wrong_args() -> (r: Vec<u8>)
    ensures
        r@ == wrong_args_msg(),
{
    let v: Vec<u8> = vec![45u8, 69, 82, 82, 32, 119, 114, 111, 110, 103, 32, 110, 117, 109, 98, 101, 114, 32, 111, 102, 32, 97, 114, 103, 117, 109, 101, 110, 116, 115, 13, 10];
    assert(v@ == wrong_args_msg());
    v
}

/// `-ERR wrong number of arguments`
pub open spec fn wrong_args_bare_msg() -> Seq<u8> {
    seq![45u8, 69, 82, 82, 32, 119, 114, 111, 110, 103, 32, 110, 117, 109, 98, 101, 114, 32, 111, 102, 32, 97, 114, 103, 117, 109, 101, 110, 116, 115]
}

/// `-ERR wrong number of arguments`
pub fn wrong_args_bare() -> (r: Vec<u8>)
    ensures
        r@ == wrong_args_bare_msg(),
{
    let v: Vec<u8> = vec![45u8, 69, 82, 82, 32, 119, 114, 111, 110, 103, 32, 110, 117, 109, 98, 101, 114, 32, 111, 102, 32, 97, 114, 103, 117, 109, 101, 110, 116, 115];
    assert(v@ == wrong_args_bare_msg());
    v
}

/// `-ERR missing key`
pub open spec fn missing_key_msg() -> Seq<u8> {
    seq![45u8, 69, 82, 82, 32, 109, 105, 115, 115, 105, 110, 103, 32, 107, 101, 121]
}

/// `-ERR missing key`
pub fn missing_key() -> (r: Vec<u8>)
    ensures
        r@ == missing_key_msg(),
{
    let v: Vec<u8> = vec![45u8, 69, 82, 82, 32, 109, 105, 115, 115, 105, 110, 103, 32, 107, 101, 121];
    assert(v@ == missing_key_msg());
    v
}

/// `-ERR missing value`
pub open spec fn missing_value_msg() -> Seq<u8> {
    seq![45u8, 69, 82, 82, 32, 109, 105, 115, 115, 105, 110, 103, 32, 118, 97, 108, 117, 101]
}

/// `-ERR missing value`
pub fn missing_value() -> (r: Vec<u8>)
    ensures
        r@ == missing_value_msg(),
{
    let v: Vec<u8> = vec![45u8, 69, 82, 82, 32, 109, 105, 115, 115, 105, 110, 103, 32, 118, 97, 108, 117, 101];
    assert(v@ == missing_value_msg());
    v
}

/// `-ERR missing EX value`
pub open spec fn missing_ex_value_msg() -> Seq<u8> {
    seq![45u8, 69, 82, 82, 32, 109, 105, 115, 115, 105, 110, 103, 32, 69, 88, 32, 118, 97, 108, 117, 101]
}

/// `-ERR missing EX value`
pub fn missing_ex_value() -> (r: Vec<u8>)
    ensures
        r@ == missing_ex_value_msg(),
{
    let v: Vec<u8> = vec![45u8, 69, 82, 82, 32, 109, 105, 115, 115, 105, 110, 103, 32, 69, 88, 32, 118, 97, 108, 117, 101];
    assert(v@ == missing_ex_value_msg());
    v
}

/// `-ERR invalid EX/PX value`
pub open spec fn invalid_ex_value_msg() -> Seq<u8> {
    seq![45u8, 69, 82, 82, 32, 105, 110, 118, 97, 108, 105, 100, 32, 69, 88, 47, 80, 88, 32, 118, 97, 108, 117, 101]
}

/// `-ERR invalid EX/PX value`
pub fn invalid_ex_value() -> (r: Vec<u8>)
    ensures
        r@ == invalid_ex_value_msg(),
{
    let v: Vec<u8> = vec![45u8, 69, 82, 82, 32, 105, 110, 118, 97, 108, 105, 100, 32, 69, 88, 47, 80, 88, 32, 118, 97, 108, 117, 101];
    assert(v@ == invalid_ex_value_msg());
    v
}

/// `-ERR missing start`
pub open spec fn missing_start_msg() -> Seq<u8> {
    seq![45u8, 69, 82, 82, 32, 109, 105, 115, 115, 105, 110, 103, 32, 115, 116, 97, 114, 116]
}

/// `-ERR missing start`
pub fn missing_start() -> (r: Vec<u8>)
    ensures
        r@ == missing_start_msg(),
{
    let v: Vec<u8> = vec![45u8, 69, 82, 82, 32, 109, 105, 115, 115, 105, 110, 103, 32, 115, 116, 97, 114, 116];
    assert(v@ == missing_start_msg());
    v
}

/// `-ERR missing stop`
pub open spec fn missing_stop_msg() -> Seq<u8> {
    seq![45u8, 69, 82, 82, 32, 109, 105, 115, 115, 105, 110, 103, 32, 115, 116, 111, 112]
}

/// `-ERR missing stop`
pub fn missing_stop() -> (r: Vec<u8>)
    ensures
        r@ == missing_stop_msg(),
{
    let v: Vec<u8> = vec![45u8, 69, 82, 82, 32, 109, 105, 115, 115, 105, 110, 103, 32, 115, 116, 111, 112];
    assert(v@ == missing_stop_msg());
    v
}

/// `-ERR missing timeout`
pub open spec fn missing_timeout_msg() -> Seq<u8> {
    seq![45u8, 69, 82, 82, 32, 109, 105, 115, 115, 105, 110, 103, 32, 116, 105, 109, 101, 111, 117, 116]
}

/// `-ERR missing timeout`
pub fn missing_timeout() -> (r: Vec<u8>)
    ensures
        r@ == missing_timeout_msg(),
{
    let v: Vec<u8> = vec![45u8, 69, 82, 82, 32, 109, 105, 115, 115, 105, 110, 103, 32, 116, 105, 109, 101, 111, 117, 116];
    assert(v@ == missing_timeout_msg());
    v
}

/// `-ERR missing entry id`
pub open spec fn missing_entry_id_msg() -> Seq<u8> {
    seq![45u8, 69, 82, 82, 32, 109, 105, 115, 115, 105, 110, 103, 32, 101, 110, 116, 114, 121, 32, 105, 100]
}

/// `-ERR missing entry id`
pub fn missing_entry_id() -> (r: Vec<u8>)
    ensures
        r@ == missing_entry_id_msg(),
{
    let v: Vec<u8> = vec![45u8, 69, 82, 82, 32, 109, 105, 115, 115, 105, 110, 103, 32, 101, 110, 116, 114, 121, 32, 105, 100];
    assert(v@ == missing_entry_id_msg());
    v
}

/// `-ERR The ID specified in XADD must be greater than 0-0\r\n`
pub open spec fn xadd_zero_id_msg() -> Seq<u8> {
    seq![45u8, 69, 82, 82, 32, 84, 104, 101, 32, 73, 68, 32, 115, 112, 101, 99, 105, 102, 105, 101, 100, 32, 105, 110, 32, 88, 65, 68, 68, 32, 109, 117, 115, 116, 32, 98, 101, 32, 103, 114, 101, 97, 116, 101, 114, 32, 116, 104, 97, 110, 32, 48, 45, 48, 13, 10]
}

/// `-ERR The ID specified in XADD must be greater than 0-0\r\n`
pub fn xadd_zero_id() -> (r: Vec<u8>)
    ensures
        r@ == xadd_zero_id_msg(),
{
    let v: Vec<u8> = vec![45u8, 69, 82, 82, 32, 84, 104, 101, 32, 73, 68, 32, 115, 112, 101, 99, 105, 102, 105, 101, 100, 32, 105, 110, 32, 88, 65, 68, 68, 32, 109, 117, 115, 116, 32, 98, 101, 32, 103, 114, 101, 97, 116, 101, 114, 32, 116, 104, 97, 110, 32, 48, 45, 48, 13, 10];
    assert(v@ == xadd_zero_id_msg());
    v
}

/// `+list\r\n`
pub open spec fn type_list_msg() -> Seq<u8> {
    seq![43u8, 108, 105, 115, 116, 13, 10]
}

/// `+list\r\n`
pub fn type_list() -> (r: Vec<u8>)
    ensures
        r@ == type_list_msg(),
{
    let v: Vec<u8> = vec![43u8, 108, 105, 115, 116, 13, 10];
    assert(v@ == type_list_msg());
    v
}

/// `+string\r\n`
pub open spec fn type_string_msg() -> Seq<u8> {
    seq![43u8, 115, 116, 114, 105, 110, 103, 13, 10]
}

/// `+string\r\n`
pub fn type_string() -> (r: Vec<u8>)
    ensures
        r@ == type_string_msg(),
{
    let v: Vec<u8> = vec![43u8, 115, 116, 114, 105, 110, 103, 13, 10];
    assert(v@ == type_string_msg());
    v
}

/// `+stream\r\n`
pub open spec fn type_stream_msg() -> Seq<u8> {
    seq![43u8, 115, 116, 114, 101, 97, 109, 13, 10]
}

/// `+stream\r\n`
pub fn type_stream() -> (r: Vec<u8>)
    ensures
        r@ == type_stream_msg(),
{
    let v: Vec<u8> = vec![43u8, 115, 116, 114, 101, 97, 109, 13, 10];
    assert(v@ == type_stream_msg());
    v
}

/// `+none\r\n`
pub open spec fn type_none_msg() -> Seq<u8> {
    seq![43u8, 110, 111, 110, 101, 13, 10]
}

/// `+none\r\n`
pub fn type_none() -> (r: Vec<u8>)
    ensures
        r@ == type_none_msg(),
{
    let v: Vec<u8> = vec![43u8, 110, 111, 110, 101, 13, 10];
    assert(v@ == type_none_msg());
    v
}

/// `+OK\r\n`
pub open spec fn ok_msg() -> Seq<u8> {
    seq![43u8, 79, 75, 13, 10]
}

/// `+OK\r\n`
pub fn ok() -> (r: Vec<u8>)
    ensures
        r@ == ok_msg(),
{
    let v: Vec<u8> = vec![43u8, 79, 75, 13, 10];
    assert(v@ == ok_msg());
    v
}

/// `$-1\r\n`
pub open spec fn nil_msg() -> Seq<u8> {
    seq![36u8, 45, 49, 13, 10]
}

/// `$-1\r\n`
pub fn nil() -> (r: Vec<u8>)
    ensures
        r@ == nil_msg(),
{
    let v: Vec<u8> = vec![36u8, 45, 49, 13, 10];
    assert(v@ == nil_msg());
    v
}

/// `*0\r\n`
pub open spec fn empty_array_msg() -> Seq<u8> {
    seq![42u8, 48, 13, 10]
}

/// `*0\r\n`
pub fn empty_array() -> (r: Vec<u8>)
    ensures
        r@ == empty_array_msg(),
{
    let v: Vec<u8> = vec![42u8, 48, 13, 10];
    assert(v@ == empty_array_msg());
    v
}

/// `:0\r\n`
pub open spec fn zero_msg() -> Seq<u8> {
    seq![58u8, 48, 13, 10]
}

/// `:0\r\n`
pub fn zero() -> (r: Vec<u8>)
    ensures
        r@ == zero_msg(),
{
    let v: Vec<u8> = vec![58u8, 48, 13, 10];
    assert(v@ == zero_msg());
    v
}

/// `-WRONGTYPE Operation against a key holding the wrong kind of value\r\n`
pub open spec fn wrong_type_msg() -> Seq<u8> {
    seq![45u8, 87, 82, 79, 78, 71, 84, 89, 80, 69, 32, 79, 112, 101, 114, 97, 116, 105, 111, 110, 32, 97, 103, 97, 105, 110, 115, 116, 32, 97, 32, 107, 101, 121, 32, 104, 111, 108, 100, 105, 110, 103, 32, 116, 104, 101, 32, 119, 114, 111, 110, 103, 32, 107, 105, 110, 100, 32, 111, 102, 32, 118, 97, 108, 117, 101, 13, 10]
}

/// `-WRONGTYPE Operation against a key holding the wrong kind of value\r\n`
pub fn wrong_type() -> (r: Vec<u8>)
    ensures
        r@ == wrong_type_msg(),
{
    let v: Vec<u8> = vec![45u8, 87, 82, 79, 78, 71, 84, 89, 80, 69, 32, 79, 112, 101, 114, 97, 116, 105, 111, 110, 32, 97, 103, 97, 105, 110, 115, 116, 32, 97, 32, 107, 101, 121, 32, 104, 111, 108, 100, 105, 110, 103, 32, 116, 104, 101, 32, 119, 114, 111, 110, 103, 32, 107, 105, 110, 100, 32, 111, 102, 32, 118, 97, 108, 117, 101, 13, 10];
    assert(v@ == wrong_type_msg());
    v
}

/// `__BLOCK__`
pub open spec fn block_msg() -> Seq<u8> {
    seq![95u8, 95, 66, 76, 79, 67, 75, 95, 95]
}

/// `__BLOCK__`
pub fn block() -> (r: Vec<u8>)
    ensures
        r@ == block_msg(),
{
    let v: Vec<u8> = vec![95u8, 95, 66, 76, 79, 67, 75, 95, 95];
    assert(v@ == block_msg());
    v
}

/// `*3\r\n$9\r\nsubscribe\r\n`
pub open spec fn subscribe_header_msg() -> Seq<u8> {
    seq![42u8, 51, 13, 10, 36, 57, 13, 10, 115, 117, 98, 115, 99, 114, 105, 98, 101, 13, 10]
}

/// `*3\r\n$9\r\nsubscribe\r\n`
pub fn subscribe_header() -> (r: Vec<u8>)
    ensures
        r@ == subscribe_header_msg(),
{
    let v: Vec<u8> = vec![42u8, 51, 13, 10, 36, 57, 13, 10, 115, 117, 98, 115, 99, 114, 105, 98, 101, 13, 10];
    assert(v@ == subscribe_header_msg());
    v
}

/// `*3\r\n$11\r\nunsubscribe\r\n`
pub open spec fn unsubscribe_header_msg() -> Seq<u8> {
    seq![42u8, 51, 13, 10, 36, 49, 49, 13, 10, 117, 110, 115, 117, 98, 115, 99, 114, 105, 98, 101, 13, 10]
}

/// `*3\r\n$11\r\nunsubscribe\r\n`
pub fn unsubscribe_header() -> (r: Vec<u8>)
    ensures
        r@ == unsubscribe_header_msg(),
{
    let v: Vec<u8> = vec![42u8, 51, 13, 10, 36, 49, 49, 13, 10, 117, 110, 115, 117, 98, 115, 99, 114, 105, 98, 101, 13, 10];
    assert(v@ == unsubscribe_header_msg());
    v
}

/// `-Err not in subscribed mode`
pub open spec fn not_subscribed_msg() -> Seq<u8> {
    seq![45u8, 69, 114, 114, 32, 110, 111, 116, 32, 105, 110, 32, 115, 117, 98, 115, 99, 114, 105, 98, 101, 100, 32, 109, 111, 100, 101]
}

/// `-Err not in subscribed mode`
pub fn not_subscribed() -> (r: Vec<u8>)
    ensures
        r@ == not_subscribed_msg(),
{
    let v: Vec<u8> = vec![45u8, 69, 114, 114, 32, 110, 111, 116, 32, 105, 110, 32, 115, 117, 98, 115, 99, 114, 105, 98, 101, 100, 32, 109, 111, 100, 101];
    assert(v@ == not_subscribed_msg());
    v
}

/// `-ERR Can't execute '`
pub open spec fn blocked_prefix_msg() -> Seq<u8> {
    seq![45u8, 69, 82, 82, 32, 67, 97, 110, 39, 116, 32, 101, 120, 101, 99, 117, 116, 101, 32, 39]
}

/// `-ERR Can't execute '`
pub fn blocked_prefix() -> (r: Vec<u8>)
    ensures
        r@ == blocked_prefix_msg(),
{
    let v: Vec<u8> = vec![45u8, 69, 82, 82, 32, 67, 97, 110, 39, 116, 32, 101, 120, 101, 99, 117, 116, 101, 32, 39];
    assert(v@ == blocked_prefix_msg());
    v
}

/// `': only (P|S)SUBSCRIBE / (P|S)UNSUBSCRIBE / PING / QUIT / RESET are allowed in this context\r\n`
pub open spec fn blocked_suffix_msg() -> Seq<u8> {
    seq![39u8, 58, 32, 111, 110, 108, 121, 32, 40, 80, 124, 83, 41, 83, 85, 66, 83, 67, 82, 73, 66, 69, 32, 47, 32, 40, 80, 124, 83, 41, 85, 78, 83, 85, 66, 83, 67, 82, 73, 66, 69, 32, 47, 32, 80, 73, 78, 71, 32, 47, 32, 81, 85, 73, 84, 32, 47, 32, 82, 69, 83, 69, 84, 32, 97, 114, 101, 32, 97, 108, 108, 111, 119, 101, 100, 32, 105, 110, 32, 116, 104, 105, 115, 32, 99, 111, 110, 116, 101, 120, 116, 13, 10]
}

/// `': only (P|S)SUBSCRIBE / (P|S)UNSUBSCRIBE / PING / QUIT / RESET are allowed in this context\r\n`
pub fn blocked_suffix() -> (r: Vec<u8>)
    ensures
        r@ == blocked_suffix_msg(),
{
    let v: Vec<u8> = vec![39u8, 58, 32, 111, 110, 108, 121, 32, 40, 80, 124, 83, 41, 83, 85, 66, 83, 67, 82, 73, 66, 69, 32, 47, 32, 40, 80, 124, 83, 41, 85, 78, 83, 85, 66, 83, 67, 82, 73, 66, 69, 32, 47, 32, 80, 73, 78, 71, 32, 47, 32, 81, 85, 73, 84, 32, 47, 32, 82, 69, 83, 69, 84, 32, 97, 114, 101, 32, 97, 108, 108, 111, 119, 101, 100, 32, 105, 110, 32, 116, 104, 105, 115, 32, 99, 111, 110, 116, 101, 120, 116, 13, 10];
    assert(v@ == blocked_suffix_msg());
    v
}

/// `-ERR unknown command\r\n`
pub open spec fn unknown_command_msg() -> Seq<u8> {
    seq![45u8, 69, 82, 82, 32, 117, 110, 107, 110, 111, 119, 110, 32, 99, 111, 109, 109, 97, 110, 100, 13, 10]
}

/// `-ERR unknown command\r\n`
pub fn unknown_command() -> (r: Vec<u8>)
    ensures
        r@ == unknown_command_msg(),
{
    let v: Vec<u8> = vec![45u8, 69, 82, 82, 32, 117, 110, 107, 110, 111, 119, 110, 32, 99, 111, 109, 109, 97, 110, 100, 13, 10];
    assert(v@ == unknown_command_msg());
    v
}

/// `-ERR invalid RESP\r\n`
pub open spec fn invalid_resp_msg() -> Seq<u8> {
    seq![45u8, 69, 82, 82, 32, 105, 110, 118, 97, 108, 105, 100, 32, 82, 69, 83, 80, 13, 10]
}

/// `-ERR invalid RESP\r\n`
pub fn invalid_resp() -> (r: Vec<u8>)
    ensures
        r@ == invalid_resp_msg(),
{
    let v: Vec<u8> = vec![45u8, 69, 82, 82, 32, 105, 110, 118, 97, 108, 105, 100, 32, 82, 69, 83, 80, 13, 10];
    assert(v@ == invalid_resp_msg());
    v
}

/// `*-1\r\n`
pub open spec fn null_array_msg() -> Seq<u8> {
    seq![42u8, 45, 49, 13, 10]
}

/// `*-1\r\n`
pub fn null_array() -> (r: Vec<u8>)
    ensures
        r@ == null_array_msg(),
{
    let v: Vec<u8> = vec![42u8, 45, 49, 13, 10];
    assert(v@ == null_array_msg());
    v
}

/// `*2\r\n`
pub open spec fn array_two_msg() -> Seq<u8> {
    seq![42u8, 50, 13, 10]
}

/// `*2\r\n`
pub fn array_two() -> (r: Vec<u8>)
    ensures
        r@ == array_two_msg(),
{
    let v: Vec<u8> = vec![42u8, 50, 13, 10];
    assert(v@ == array_two_msg());
    v
}

/// `*3\r\n$7\r\nmessage\r\n`
pub open spec fn message_header_msg() -> Seq<u8> {
    seq![42u8, 51, 13, 10, 36, 55, 13, 10, 109, 101, 115, 115, 97, 103, 101, 13, 10]
}

/// `*3\r\n$7\r\nmessage\r\n`
pub fn message_header() -> (r: Vec<u8>)
    ensures
        r@ == message_header_msg(),
{
    let v: Vec<u8> = vec![42u8, 51, 13, 10, 36, 55, 13, 10, 109, 101, 115, 115, 97, 103, 101, 13, 10];
    assert(v@ == message_header_msg());
    v
}

/// `0-0`
pub open spec fn zero_zero_msg() -> Seq<u8> {
    seq![48u8, 45, 48]
}

/// `0-0`
pub fn zero_zero() -> (r: Vec<u8>)
    ensures
        r@ == zero_zero_msg(),
{
    let v: Vec<u8> = vec![48u8, 45, 48];
    assert(v@ == zero_zero_msg());
    v
}

} // verus!
