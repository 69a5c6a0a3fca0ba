//! The translation request record and the decisions the streaming
//! translation loop makes: which streamed chunks are worth displaying, and
//! what text a request falls back to when its content is empty.

use vstd::prelude::*;
use vstd::string::StringSliceAdditionalSpecFns;

verus! {

/// One translation request: the text to translate and the two languages.
pub struct TranslateRequest {
    pub content: String,
    pub src_lang: String,
    pub target_lang: String,
}

impl TranslateRequest {
    pub fn new(content: &str, src_lang: &str, target_lang: &str) -> (r: Self)
        ensures
            r.content@ == content@,
            r.src_lang@ == src_lang@,
            r.target_lang@ == target_lang@,
    {
        Self {
            content: content.to_owned(),
            src_lang: src_lang.to_owned(),
            target_lang: target_lang.to_owned(),
        }
    }
}

/// A streamed chunk is displayed exactly when it holds a byte other than
/// a newline or a space; chunks of only those two are dropped.
pub open spec fn spec_displayable(b: Seq<u8>) -> bool {
    exists|i: int| 0 <= i < b.len() && b[i] != 10 && b[i] != 32
}

/// Whether a streamed translation chunk carries displayable text.
pub fn is_displayable_chunk(content: &str) -> (keep: bool)
    ensures
        keep == spec_displayable(content.spec_bytes()),
{
    let b = content.as_bytes();
    let mut i: usize = 0;
    let n = b.len();
    while i < n
        invariant
            i <= n,
            n == b@.len(),
            forall|j: int| 0 <= j < i ==> b@[j] == 10 || b@[j] == 32,
        decreases n - i,
    {
        if b[i] != 10 && b[i] != 32 {
            proof {
                assert(b@[i as int] != 10 && b@[i as int] != 32);
            }
            return true;
        }
        i = i + 1;
    }
    false
}

/// The text a request is sent with: its own content, or a fixed sample
/// sentence when the content is empty.
pub fn effective_content(content: &str) -> (r: String)
    ensures
        content@.len() == 0 ==> r@ == "これはテスト文です。"@,
        content@.len() > 0 ==> r@ == content@,
{
    if content.is_empty() {
        "これはテスト文です。".to_owned()
    } else {
        content.to_owned()
    }
}

} // verus!
