//! Fixed byte texts: placeholder markers, the link scheme, and the anchor
//! fragments that the postprocessor looks for and emits.

use vstd::prelude::*;

verus! {

/// Bytes of `"*[Embed: "`.
pub open spec fn lit_embed_prefix() -> Seq<u8> {
    seq![42u8, 91u8, 69u8, 109u8, 98u8, 101u8, 100u8, 58u8, 32u8]
}

pub fn push_embed_prefix(out: &mut Vec<u8>)
    ensures
        final(out)@ == old(out)@ + lit_embed_prefix(),
{
    out.push(42u8);
    out.push(91u8);
    out.push(69u8);
    out.push(109u8);
    out.push(98u8);
    out.push(101u8);
    out.push(100u8);
    out.push(58u8);
    out.push(32u8);
    assert(out@ =~= old(out)@ + lit_embed_prefix());
}

/// Bytes of `" (not found)]*"`.
pub open spec fn lit_not_found_suffix() -> Seq<u8> {
    seq![32u8, 40u8, 110u8, 111u8, 116u8, 32u8, 102u8, 111u8, 117u8, 110u8, 100u8, 41u8, 93u8, 42u8]
}

pub fn push_not_found_suffix(out: &mut Vec<u8>)
    ensures
        final(out)@ == old(out)@ + lit_not_found_suffix(),
{
    out.push(32u8);
    out.push(40u8);
    out.push(110u8);
    out.push(111u8);
    out.push(116u8);
    out.push(32u8);
    out.push(102u8);
    out.push(111u8);
    out.push(117u8);
    out.push(110u8);
    out.push(100u8);
    out.push(41u8);
    out.push(93u8);
    out.push(42u8);
    assert(out@ =~= old(out)@ + lit_not_found_suffix());
}

/// Bytes of `" (ambiguous)]*"`.
pub open spec fn lit_ambiguous_suffix() -> Seq<u8> {
    seq![32u8, 40u8, 97u8, 109u8, 98u8, 105u8, 103u8, 117u8, 111u8, 117u8, 115u8, 41u8, 93u8, 42u8]
}

pub fn push_ambiguous_suffix(out: &mut Vec<u8>)
    ensures
        final(out)@ == old(out)@ + lit_ambiguous_suffix(),
{
    out.push(32u8);
    out.push(40u8);
    out.push(97u8);
    out.push(109u8);
    out.push(98u8);
    out.push(105u8);
    out.push(103u8);
    out.push(117u8);
    out.push(111u8);
    out.push(117u8);
    out.push(115u8);
    out.push(41u8);
    out.push(93u8);
    out.push(42u8);
    assert(out@ =~= old(out)@ + lit_ambiguous_suffix());
}

/// Bytes of `" (cycle)]*"`.
pub open spec fn lit_cycle_suffix() -> Seq<u8> {
    seq![32u8, 40u8, 99u8, 121u8, 99u8, 108u8, 101u8, 41u8, 93u8, 42u8]
}

pub fn push_cycle_suffix(out: &mut Vec<u8>)
    ensures
        final(out)@ == old(out)@ + lit_cycle_suffix(),
{
    out.push(32u8);
    out.push(40u8);
    out.push(99u8);
    out.push(121u8);
    out.push(99u8);
    out.push(108u8);
    out.push(101u8);
    out.push(41u8);
    out.push(93u8);
    out.push(42u8);
    assert(out@ =~= old(out)@ + lit_cycle_suffix());
}

/// Bytes of `" (depth limit)]*"`.
pub open spec fn lit_depth_suffix() -> Seq<u8> {
    seq![32u8, 40u8, 100u8, 101u8, 112u8, 116u8, 104u8, 32u8, 108u8, 105u8, 109u8, 105u8, 116u8, 41u8, 93u8, 42u8]
}

pub fn push_depth_suffix(out: &mut Vec<u8>)
    ensures
        final(out)@ == old(out)@ + lit_depth_suffix(),
{
    out.push(32u8);
    out.push(40u8);
    out.push(100u8);
    out.push(101u8);
    out.push(112u8);
    out.push(116u8);
    out.push(104u8);
    out.push(32u8);
    out.push(108u8);
    out.push(105u8);
    out.push(109u8);
    out.push(105u8);
    out.push(116u8);
    out.push(41u8);
    out.push(93u8);
    out.push(42u8);
    assert(out@ =~= old(out)@ + lit_depth_suffix());
}

/// Bytes of `"*[Embed: invalid path]*"`.
pub open spec fn lit_invalid_path_marker() -> Seq<u8> {
    seq![42u8, 91u8, 69u8, 109u8, 98u8, 101u8, 100u8, 58u8, 32u8, 105u8, 110u8, 118u8, 97u8, 108u8, 105u8, 100u8, 32u8, 112u8, 97u8, 116u8, 104u8, 93u8, 42u8]
}

pub fn push_invalid_path_marker(out: &mut Vec<u8>)
    ensures
        final(out)@ == old(out)@ + lit_invalid_path_marker(),
{
    out.push(42u8);
    out.push(91u8);
    out.push(69u8);
    out.push(109u8);
    out.push(98u8);
    out.push(101u8);
    out.push(100u8);
    out.push(58u8);
    out.push(32u8);
    out.push(105u8);
    out.push(110u8);
    out.push(118u8);
    out.push(97u8);
    out.push(108u8);
    out.push(105u8);
    out.push(100u8);
    out.push(32u8);
    out.push(112u8);
    out.push(97u8);
    out.push(116u8);
    out.push(104u8);
    out.push(93u8);
    out.push(42u8);
    assert(out@ =~= old(out)@ + lit_invalid_path_marker());
}

/// Bytes of `"*[Embed: read error]*"`.
pub open spec fn lit_read_error_marker() -> Seq<u8> {
    seq![42u8, 91u8, 69u8, 109u8, 98u8, 101u8, 100u8, 58u8, 32u8, 114u8, 101u8, 97u8, 100u8, 32u8, 101u8, 114u8, 114u8, 111u8, 114u8, 93u8, 42u8]
}

pub fn push_read_error_marker(out: &mut Vec<u8>)
    ensures
        final(out)@ == old(out)@ + lit_read_error_marker(),
{
    out.push(42u8);
    out.push(91u8);
    out.push(69u8);
    out.push(109u8);
    out.push(98u8);
    out.push(101u8);
    out.push(100u8);
    out.push(58u8);
    out.push(32u8);
    out.push(114u8);
    out.push(101u8);
    out.push(97u8);
    out.push(100u8);
    out.push(32u8);
    out.push(101u8);
    out.push(114u8);
    out.push(114u8);
    out.push(111u8);
    out.push(114u8);
    out.push(93u8);
    out.push(42u8);
    assert(out@ =~= old(out)@ + lit_read_error_marker());
}

/// Bytes of `"[Asset: "`.
pub open spec fn lit_asset_prefix() -> Seq<u8> {
    seq![91u8, 65u8, 115u8, 115u8, 101u8, 116u8, 58u8, 32u8]
}

pub fn push_asset_prefix(out: &mut Vec<u8>)
    ensures
        final(out)@ == old(out)@ + lit_asset_prefix(),
{
    out.push(91u8);
    out.push(65u8);
    out.push(115u8);
    out.push(115u8);
    out.push(101u8);
    out.push(116u8);
    out.push(58u8);
    out.push(32u8);
    assert(out@ =~= old(out)@ + lit_asset_prefix());
}

/// Bytes of `"](file:///"`.
pub open spec fn lit_asset_mid() -> Seq<u8> {
    seq![93u8, 40u8, 102u8, 105u8, 108u8, 101u8, 58u8, 47u8, 47u8, 47u8]
}

pub fn push_asset_mid(out: &mut Vec<u8>)
    ensures
        final(out)@ == old(out)@ + lit_asset_mid(),
{
    out.push(93u8);
    out.push(40u8);
    out.push(102u8);
    out.push(105u8);
    out.push(108u8);
    out.push(101u8);
    out.push(58u8);
    out.push(47u8);
    out.push(47u8);
    out.push(47u8);
    assert(out@ =~= old(out)@ + lit_asset_mid());
}

/// Bytes of `"app://open?path="`.
pub open spec fn lit_href_prefix() -> Seq<u8> {
    seq![97u8, 112u8, 112u8, 58u8, 47u8, 47u8, 111u8, 112u8, 101u8, 110u8, 63u8, 112u8, 97u8, 116u8, 104u8, 61u8]
}

pub fn push_href_prefix(out: &mut Vec<u8>)
    ensures
        final(out)@ == old(out)@ + lit_href_prefix(),
{
    out.push(97u8);
    out.push(112u8);
    out.push(112u8);
    out.push(58u8);
    out.push(47u8);
    out.push(47u8);
    out.push(111u8);
    out.push(112u8);
    out.push(101u8);
    out.push(110u8);
    out.push(63u8);
    out.push(112u8);
    out.push(97u8);
    out.push(116u8);
    out.push(104u8);
    out.push(61u8);
    assert(out@ =~= old(out)@ + lit_href_prefix());
}

/// Bytes of `".md"`.
pub open spec fn lit_md_suffix() -> Seq<u8> {
    seq![46u8, 109u8, 100u8]
}

pub fn push_md_suffix(out: &mut Vec<u8>)
    ensures
        final(out)@ == old(out)@ + lit_md_suffix(),
{
    out.push(46u8);
    out.push(109u8);
    out.push(100u8);
    assert(out@ =~= old(out)@ + lit_md_suffix());
}

/// Bytes of `"?"`.
pub open spec fn lit_question_name() -> Seq<u8> {
    seq![63u8]
}

pub fn push_question_name(out: &mut Vec<u8>)
    ensures
        final(out)@ == old(out)@ + lit_question_name(),
{
    out.push(63u8);
    assert(out@ =~= old(out)@ + lit_question_name());
}

/// Bytes of `"asset"`.
pub open spec fn lit_asset_name() -> Seq<u8> {
    seq![97u8, 115u8, 115u8, 101u8, 116u8]
}

pub fn push_asset_name(out: &mut Vec<u8>)
    ensures
        final(out)@ == old(out)@ + lit_asset_name(),
{
    out.push(97u8);
    out.push(115u8);
    out.push(115u8);
    out.push(101u8);
    out.push(116u8);
    assert(out@ =~= old(out)@ + lit_asset_name());
}

/// Bytes of `"href="app://open?path="`.
pub open spec fn lit_post_prefix() -> Seq<u8> {
    seq![104u8, 114u8, 101u8, 102u8, 61u8, 34u8, 97u8, 112u8, 112u8, 58u8, 47u8, 47u8, 111u8, 112u8, 101u8, 110u8, 63u8, 112u8, 97u8, 116u8, 104u8, 61u8]
}

pub fn push_post_prefix(out: &mut Vec<u8>)
    ensures
        final(out)@ == old(out)@ + lit_post_prefix(),
{
    out.push(104u8);
    out.push(114u8);
    out.push(101u8);
    out.push(102u8);
    out.push(61u8);
    out.push(34u8);
    out.push(97u8);
    out.push(112u8);
    out.push(112u8);
    out.push(58u8);
    out.push(47u8);
    out.push(47u8);
    out.push(111u8);
    out.push(112u8);
    out.push(101u8);
    out.push(110u8);
    out.push(63u8);
    out.push(112u8);
    out.push(97u8);
    out.push(116u8);
    out.push(104u8);
    out.push(61u8);
    assert(out@ =~= old(out)@ + lit_post_prefix());
}

/// Bytes of `"<span class="obs-link broken">"`.
pub open spec fn lit_span_open() -> Seq<u8> {
    seq![60u8, 115u8, 112u8, 97u8, 110u8, 32u8, 99u8, 108u8, 97u8, 115u8, 115u8, 61u8, 34u8, 111u8, 98u8, 115u8, 45u8, 108u8, 105u8, 110u8, 107u8, 32u8, 98u8, 114u8, 111u8, 107u8, 101u8, 110u8, 34u8, 62u8]
}

pub fn push_span_open(out: &mut Vec<u8>)
    ensures
        final(out)@ == old(out)@ + lit_span_open(),
{
    out.push(60u8);
    out.push(115u8);
    out.push(112u8);
    out.push(97u8);
    out.push(110u8);
    out.push(32u8);
    out.push(99u8);
    out.push(108u8);
    out.push(97u8);
    out.push(115u8);
    out.push(115u8);
    out.push(61u8);
    out.push(34u8);
    out.push(111u8);
    out.push(98u8);
    out.push(115u8);
    out.push(45u8);
    out.push(108u8);
    out.push(105u8);
    out.push(110u8);
    out.push(107u8);
    out.push(32u8);
    out.push(98u8);
    out.push(114u8);
    out.push(111u8);
    out.push(107u8);
    out.push(101u8);
    out.push(110u8);
    out.push(34u8);
    out.push(62u8);
    assert(out@ =~= old(out)@ + lit_span_open());
}

/// Bytes of `"</span>"`.
pub open spec fn lit_span_close() -> Seq<u8> {
    seq![60u8, 47u8, 115u8, 112u8, 97u8, 110u8, 62u8]
}

pub fn push_span_close(out: &mut Vec<u8>)
    ensures
        final(out)@ == old(out)@ + lit_span_close(),
{
    out.push(60u8);
    out.push(47u8);
    out.push(115u8);
    out.push(112u8);
    out.push(97u8);
    out.push(110u8);
    out.push(62u8);
    assert(out@ =~= old(out)@ + lit_span_close());
}

/// Bytes of `"</a>"`.
pub open spec fn lit_a_close() -> Seq<u8> {
    seq![60u8, 47u8, 97u8, 62u8]
}

pub fn push_a_close(out: &mut Vec<u8>)
    ensures
        final(out)@ == old(out)@ + lit_a_close(),
{
    out.push(60u8);
    out.push(47u8);
    out.push(97u8);
    out.push(62u8);
    assert(out@ =~= old(out)@ + lit_a_close());
}

/// Bytes of `"class=""`.
pub open spec fn lit_class_pat() -> Seq<u8> {
    seq![99u8, 108u8, 97u8, 115u8, 115u8, 61u8, 34u8]
}

pub fn push_class_pat(out: &mut Vec<u8>)
    ensures
        final(out)@ == old(out)@ + lit_class_pat(),
{
    out.push(99u8);
    out.push(108u8);
    out.push(97u8);
    out.push(115u8);
    out.push(115u8);
    out.push(61u8);
    out.push(34u8);
    assert(out@ =~= old(out)@ + lit_class_pat());
}

/// Bytes of `"obs-link "`.
pub open spec fn lit_obs_link_sp() -> Seq<u8> {
    seq![111u8, 98u8, 115u8, 45u8, 108u8, 105u8, 110u8, 107u8, 32u8]
}

pub fn push_obs_link_sp(out: &mut Vec<u8>)
    ensures
        final(out)@ == old(out)@ + lit_obs_link_sp(),
{
    out.push(111u8);
    out.push(98u8);
    out.push(115u8);
    out.push(45u8);
    out.push(108u8);
    out.push(105u8);
    out.push(110u8);
    out.push(107u8);
    out.push(32u8);
    assert(out@ =~= old(out)@ + lit_obs_link_sp());
}

/// Bytes of `" data-obs-path=""`.
pub open spec fn lit_data_obs_attr() -> Seq<u8> {
    seq![32u8, 100u8, 97u8, 116u8, 97u8, 45u8, 111u8, 98u8, 115u8, 45u8, 112u8, 97u8, 116u8, 104u8, 61u8, 34u8]
}

pub fn push_data_obs_attr(out: &mut Vec<u8>)
    ensures
        final(out)@ == old(out)@ + lit_data_obs_attr(),
{
    out.push(32u8);
    out.push(100u8);
    out.push(97u8);
    out.push(116u8);
    out.push(97u8);
    out.push(45u8);
    out.push(111u8);
    out.push(98u8);
    out.push(115u8);
    out.push(45u8);
    out.push(112u8);
    out.push(97u8);
    out.push(116u8);
    out.push(104u8);
    out.push(61u8);
    out.push(34u8);
    assert(out@ =~= old(out)@ + lit_data_obs_attr());
}

/// Bytes of `" class="obs-link" data-obs-path=""`.
pub open spec fn lit_class_full_attr() -> Seq<u8> {
    seq![32u8, 99u8, 108u8, 97u8, 115u8, 115u8, 61u8, 34u8, 111u8, 98u8, 115u8, 45u8, 108u8, 105u8, 110u8, 107u8, 34u8, 32u8, 100u8, 97u8, 116u8, 97u8, 45u8, 111u8, 98u8, 115u8, 45u8, 112u8, 97u8, 116u8, 104u8, 61u8, 34u8]
}

pub fn push_class_full_attr(out: &mut Vec<u8>)
    ensures
        final(out)@ == old(out)@ + lit_class_full_attr(),
{
    out.push(32u8);
    out.push(99u8);
    out.push(108u8);
    out.push(97u8);
    out.push(115u8);
    out.push(115u8);
    out.push(61u8);
    out.push(34u8);
    out.push(111u8);
    out.push(98u8);
    out.push(115u8);
    out.push(45u8);
    out.push(108u8);
    out.push(105u8);
    out.push(110u8);
    out.push(107u8);
    out.push(34u8);
    out.push(32u8);
    out.push(100u8);
    out.push(97u8);
    out.push(116u8);
    out.push(97u8);
    out.push(45u8);
    out.push(111u8);
    out.push(98u8);
    out.push(115u8);
    out.push(45u8);
    out.push(112u8);
    out.push(97u8);
    out.push(116u8);
    out.push(104u8);
    out.push(61u8);
    out.push(34u8);
    assert(out@ =~= old(out)@ + lit_class_full_attr());
}

/// Bytes of `"&amp;"`.
pub open spec fn lit_amp_ent() -> Seq<u8> {
    seq![38u8, 97u8, 109u8, 112u8, 59u8]
}

pub fn push_amp_ent(out: &mut Vec<u8>)
    ensures
        final(out)@ == old(out)@ + lit_amp_ent(),
{
    out.push(38u8);
    out.push(97u8);
    out.push(109u8);
    out.push(112u8);
    out.push(59u8);
    assert(out@ =~= old(out)@ + lit_amp_ent());
}

/// Bytes of `"&lt;"`.
pub open spec fn lit_lt_ent() -> Seq<u8> {
    seq![38u8, 108u8, 116u8, 59u8]
}

pub fn push_lt_ent(out: &mut Vec<u8>)
    ensures
        final(out)@ == old(out)@ + lit_lt_ent(),
{
    out.push(38u8);
    out.push(108u8);
    out.push(116u8);
    out.push(59u8);
    assert(out@ =~= old(out)@ + lit_lt_ent());
}

/// Bytes of `"&gt;"`.
pub open spec fn lit_gt_ent() -> Seq<u8> {
    seq![38u8, 103u8, 116u8, 59u8]
}

pub fn push_gt_ent(out: &mut Vec<u8>)
    ensures
        final(out)@ == old(out)@ + lit_gt_ent(),
{
    out.push(38u8);
    out.push(103u8);
    out.push(116u8);
    out.push(59u8);
    assert(out@ =~= old(out)@ + lit_gt_ent());
}

/// Bytes of `"&quot;"`.
pub open spec fn lit_quot_ent() -> Seq<u8> {
    seq![38u8, 113u8, 117u8, 111u8, 116u8, 59u8]
}

pub fn push_quot_ent(out: &mut Vec<u8>)
    ensures
        final(out)@ == old(out)@ + lit_quot_ent(),
{
    out.push(38u8);
    out.push(113u8);
    out.push(117u8);
    out.push(111u8);
    out.push(116u8);
    out.push(59u8);
    assert(out@ =~= old(out)@ + lit_quot_ent());
}


/// Bytes of `"md"`.
pub open spec fn lit_ext_md() -> Seq<u8> {
    seq![109u8, 100u8]
}

pub fn push_ext_md(out: &mut Vec<u8>)
    ensures
        final(out)@ == old(out)@ + lit_ext_md(),
{
    out.push(109u8);
    out.push(100u8);
    assert(out@ =~= old(out)@ + lit_ext_md());
}

/// Bytes of `"png"`.
pub open spec fn lit_ext_png() -> Seq<u8> {
    seq![112u8, 110u8, 103u8]
}

pub fn push_ext_png(out: &mut Vec<u8>)
    ensures
        final(out)@ == old(out)@ + lit_ext_png(),
{
    out.push(112u8);
    out.push(110u8);
    out.push(103u8);
    assert(out@ =~= old(out)@ + lit_ext_png());
}

/// Bytes of `"jpg"`.
pub open spec fn lit_ext_jpg() -> Seq<u8> {
    seq![106u8, 112u8, 103u8]
}

pub fn push_ext_jpg(out: &mut Vec<u8>)
    ensures
        final(out)@ == old(out)@ + lit_ext_jpg(),
{
    out.push(106u8);
    out.push(112u8);
    out.push(103u8);
    assert(out@ =~= old(out)@ + lit_ext_jpg());
}

/// Bytes of `"jpeg"`.
pub open spec fn lit_ext_jpeg() -> Seq<u8> {
    seq![106u8, 112u8, 101u8, 103u8]
}

pub fn push_ext_jpeg(out: &mut Vec<u8>)
    ensures
        final(out)@ == old(out)@ + lit_ext_jpeg(),
{
    out.push(106u8);
    out.push(112u8);
    out.push(101u8);
    out.push(103u8);
    assert(out@ =~= old(out)@ + lit_ext_jpeg());
}

/// Bytes of `"svg"`.
pub open spec fn lit_ext_svg() -> Seq<u8> {
    seq![115u8, 118u8, 103u8]
}

pub fn push_ext_svg(out: &mut Vec<u8>)
    ensures
        final(out)@ == old(out)@ + lit_ext_svg(),
{
    out.push(115u8);
    out.push(118u8);
    out.push(103u8);
    assert(out@ =~= old(out)@ + lit_ext_svg());
}

/// Bytes of `"pdf"`.
pub open spec fn lit_ext_pdf() -> Seq<u8> {
    seq![112u8, 100u8, 102u8]
}

pub fn push_ext_pdf(out: &mut Vec<u8>)
    ensures
        final(out)@ == old(out)@ + lit_ext_pdf(),
{
    out.push(112u8);
    out.push(100u8);
    out.push(102u8);
    assert(out@ =~= old(out)@ + lit_ext_pdf());
}


/// Bytes of `"index.md"`.
pub open spec fn lit_index_md() -> Seq<u8> {
    seq![105u8, 110u8, 100u8, 101u8, 120u8, 46u8, 109u8, 100u8]
}

pub fn push_index_md(out: &mut Vec<u8>)
    ensures
        final(out)@ == old(out)@ + lit_index_md(),
{
    out.push(105u8);
    out.push(110u8);
    out.push(100u8);
    out.push(101u8);
    out.push(120u8);
    out.push(46u8);
    out.push(109u8);
    out.push(100u8);
    assert(out@ =~= old(out)@ + lit_index_md());
}

/// Bytes of `"readme.md"`.
pub open spec fn lit_readme_md() -> Seq<u8> {
    seq![114u8, 101u8, 97u8, 100u8, 109u8, 101u8, 46u8, 109u8, 100u8]
}

pub fn push_readme_md(out: &mut Vec<u8>)
    ensures
        final(out)@ == old(out)@ + lit_readme_md(),
{
    out.push(114u8);
    out.push(101u8);
    out.push(97u8);
    out.push(100u8);
    out.push(109u8);
    out.push(101u8);
    out.push(46u8);
    out.push(109u8);
    out.push(100u8);
    assert(out@ =~= old(out)@ + lit_readme_md());
}

} // verus!
