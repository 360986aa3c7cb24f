//! Fixed byte strings of the ref machinery and the commit format,
//! each as a spec value with its executable builder.

use vstd::prelude::*;

verus! {

/// `refs/`
pub open spec fn refs_prefix() -> Seq<u8> {
    seq![114u8, 101u8, 102u8, 115u8, 47u8]
}

pub fn refs_prefix_bytes() -> (r: Vec<u8>)
    ensures
        r@ == refs_prefix(),
{
    let r = vec![114u8, 101u8, 102u8, 115u8, 47u8];
    proof {
        assert(r@ =~= refs_prefix());
    }
    r
}

/// `HEAD`
pub open spec fn head_name() -> Seq<u8> {
    seq![72u8, 69u8, 65u8, 68u8]
}

pub fn head_name_bytes() -> (r: Vec<u8>)
    ensures
        r@ == head_name(),
{
    let r = vec![72u8, 69u8, 65u8, 68u8];
    proof {
        assert(r@ =~= head_name());
    }
    r
}

/// `refs/heads/`
pub open spec fn heads_prefix() -> Seq<u8> {
    seq![114u8, 101u8, 102u8, 115u8, 47u8, 104u8, 101u8, 97u8, 100u8, 115u8, 47u8]
}

pub fn heads_prefix_bytes() -> (r: Vec<u8>)
    ensures
        r@ == heads_prefix(),
{
    let r = vec![114u8, 101u8, 102u8, 115u8, 47u8, 104u8, 101u8, 97u8, 100u8, 115u8, 47u8];
    proof {
        assert(r@ =~= heads_prefix());
    }
    r
}

/// `refs/tags/`
pub open spec fn tags_prefix() -> Seq<u8> {
    seq![114u8, 101u8, 102u8, 115u8, 47u8, 116u8, 97u8, 103u8, 115u8, 47u8]
}

pub fn tags_prefix_bytes() -> (r: Vec<u8>)
    ensures
        r@ == tags_prefix(),
{
    let r = vec![114u8, 101u8, 102u8, 115u8, 47u8, 116u8, 97u8, 103u8, 115u8, 47u8];
    proof {
        assert(r@ =~= tags_prefix());
    }
    r
}

/// `refs/remotes/`
pub open spec fn remotes_prefix() -> Seq<u8> {
    seq![114u8, 101u8, 102u8, 115u8, 47u8, 114u8, 101u8, 109u8, 111u8, 116u8, 101u8, 115u8, 47u8]
}

pub fn remotes_prefix_bytes() -> (r: Vec<u8>)
    ensures
        r@ == remotes_prefix(),
{
    let r = vec![
        114u8, 101u8, 102u8, 115u8, 47u8, 114u8, 101u8, 109u8, 111u8, 116u8, 101u8, 115u8, 47u8,
    ];
    proof {
        assert(r@ =~= remotes_prefix());
    }
    r
}

/// `tree `
pub open spec fn tree_line_prefix() -> Seq<u8> {
    seq![116u8, 114u8, 101u8, 101u8, 32u8]
}

pub fn tree_line_prefix_bytes() -> (r: Vec<u8>)
    ensures
        r@ == tree_line_prefix(),
{
    let r = vec![116u8, 114u8, 101u8, 101u8, 32u8];
    proof {
        assert(r@ =~= tree_line_prefix());
    }
    r
}

/// `parent `
pub open spec fn parent_line_prefix() -> Seq<u8> {
    seq![112u8, 97u8, 114u8, 101u8, 110u8, 116u8, 32u8]
}

pub fn parent_line_prefix_bytes() -> (r: Vec<u8>)
    ensures
        r@ == parent_line_prefix(),
{
    let r = vec![112u8, 97u8, 114u8, 101u8, 110u8, 116u8, 32u8];
    proof {
        assert(r@ =~= parent_line_prefix());
    }
    r
}

/// `author `
pub open spec fn author_line_prefix() -> Seq<u8> {
    seq![97u8, 117u8, 116u8, 104u8, 111u8, 114u8, 32u8]
}

pub fn author_line_prefix_bytes() -> (r: Vec<u8>)
    ensures
        r@ == author_line_prefix(),
{
    let r = vec![97u8, 117u8, 116u8, 104u8, 111u8, 114u8, 32u8];
    proof {
        assert(r@ =~= author_line_prefix());
    }
    r
}

/// `committer `
pub open spec fn committer_line_prefix() -> Seq<u8> {
    seq![99u8, 111u8, 109u8, 109u8, 105u8, 116u8, 116u8, 101u8, 114u8, 32u8]
}

pub fn committer_line_prefix_bytes() -> (r: Vec<u8>)
    ensures
        r@ == committer_line_prefix(),
{
    let r = vec![99u8, 111u8, 109u8, 109u8, 105u8, 116u8, 116u8, 101u8, 114u8, 32u8];
    proof {
        assert(r@ =~= committer_line_prefix());
    }
    r
}

/// `ref: `
pub open spec fn symref_prefix() -> Seq<u8> {
    seq![114u8, 101u8, 102u8, 58u8, 32u8]
}

pub fn symref_prefix_bytes() -> (r: Vec<u8>)
    ensures
        r@ == symref_prefix(),
{
    let r = vec![114u8, 101u8, 102u8, 58u8, 32u8];
    proof {
        assert(r@ =~= symref_prefix());
    }
    r
}

/// `master`
pub open spec fn master_name() -> Seq<u8> {
    seq![109u8, 97u8, 115u8, 116u8, 101u8, 114u8]
}

pub fn master_name_bytes() -> (r: Vec<u8>)
    ensures
        r@ == master_name(),
{
    let r = vec![109u8, 97u8, 115u8, 116u8, 101u8, 114u8];
    proof {
        assert(r@ =~= master_name());
    }
    r
}

/// `Initial commit`
pub open spec fn init_message() -> Seq<u8> {
    seq![73u8, 110u8, 105u8, 116u8, 105u8, 97u8, 108u8, 32u8, 99u8, 111u8, 109u8, 109u8, 105u8, 116u8]
}

pub fn init_message_bytes() -> (r: Vec<u8>)
    ensures
        r@ == init_message(),
{
    let r = vec![73u8, 110u8, 105u8, 116u8, 105u8, 97u8, 108u8, 32u8, 99u8, 111u8, 109u8, 109u8, 105u8, 116u8];
    proof {
        assert(r@ =~= init_message());
    }
    r
}

/// `remote "`
pub open spec fn remote_section_open() -> Seq<u8> {
    seq![114u8, 101u8, 109u8, 111u8, 116u8, 101u8, 32u8, 34u8]
}

pub fn remote_section_open_bytes() -> (r: Vec<u8>)
    ensures
        r@ == remote_section_open(),
{
    let r = vec![114u8, 101u8, 109u8, 111u8, 116u8, 101u8, 32u8, 34u8];
    proof {
        assert(r@ =~= remote_section_open());
    }
    r
}

/// `"`
pub open spec fn quote_mark() -> Seq<u8> {
    seq![34u8]
}

pub fn quote_mark_bytes() -> (r: Vec<u8>)
    ensures
        r@ == quote_mark(),
{
    let r = vec![34u8];
    proof {
        assert(r@ =~= quote_mark());
    }
    r
}

/// `url`
pub open spec fn url_key() -> Seq<u8> {
    seq![117u8, 114u8, 108u8]
}

pub fn url_key_bytes() -> (r: Vec<u8>)
    ensures
        r@ == url_key(),
{
    let r = vec![117u8, 114u8, 108u8];
    proof {
        assert(r@ =~= url_key());
    }
    r
}

/// `http://`
pub open spec fn http_scheme() -> Seq<u8> {
    seq![104u8, 116u8, 116u8, 112u8, 58u8, 47u8, 47u8]
}

pub fn http_scheme_bytes() -> (r: Vec<u8>)
    ensures
        r@ == http_scheme(),
{
    let r = vec![104u8, 116u8, 116u8, 112u8, 58u8, 47u8, 47u8];
    proof {
        assert(r@ =~= http_scheme());
    }
    r
}

/// `https://`
pub open spec fn https_scheme() -> Seq<u8> {
    seq![104u8, 116u8, 116u8, 112u8, 115u8, 58u8, 47u8, 47u8]
}

pub fn https_scheme_bytes() -> (r: Vec<u8>)
    ensures
        r@ == https_scheme(),
{
    let r = vec![104u8, 116u8, 116u8, 112u8, 115u8, 58u8, 47u8, 47u8];
    proof {
        assert(r@ =~= https_scheme());
    }
    r
}

/// `Merge branch '`
pub open spec fn merge_msg_open() -> Seq<u8> {
    seq![77u8, 101u8, 114u8, 103u8, 101u8, 32u8, 98u8, 114u8, 97u8, 110u8, 99u8, 104u8, 32u8, 39u8]
}

pub fn merge_msg_open_bytes() -> (r: Vec<u8>)
    ensures
        r@ == merge_msg_open(),
{
    let r = vec![77u8, 101u8, 114u8, 103u8, 101u8, 32u8, 98u8, 114u8, 97u8, 110u8, 99u8, 104u8, 32u8, 39u8];
    proof {
        assert(r@ =~= merge_msg_open());
    }
    r
}

/// `' into `
pub open spec fn merge_msg_mid() -> Seq<u8> {
    seq![39u8, 32u8, 105u8, 110u8, 116u8, 111u8, 32u8]
}

pub fn merge_msg_mid_bytes() -> (r: Vec<u8>)
    ensures
        r@ == merge_msg_mid(),
{
    let r = vec![39u8, 32u8, 105u8, 110u8, 116u8, 111u8, 32u8];
    proof {
        assert(r@ =~= merge_msg_mid());
    }
    r
}

} // verus!
