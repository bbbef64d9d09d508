use vstd::prelude::*;

pub mod birule;
pub mod blob;
pub mod charstr;
pub mod code;
pub mod codec;
pub mod digits;
pub mod engmatch;
pub mod english;
pub mod hanja;
pub mod kmadict;
pub mod kmorph;
pub mod link;
pub mod morph;
pub mod common;
pub mod post;
pub mod posngram;
pub mod pronrule;
pub mod preproc;
pub mod pronsec;
pub mod synthdb;
pub mod tables;
pub mod text;
pub mod types;
pub mod userdic;
pub mod tosplit;
pub mod wav;
pub mod wdic;
pub mod sentence;
pub mod wordgram;
pub mod wordlist;
pub mod yongon;

verus! {
}
