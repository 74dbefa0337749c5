//! The logic of a small seasonal web service, verified.
//!
//! The heart of it is [`ledger`]: a store of regions and gift orders with
//! two queries over it, the quantity ordered under each region name and the
//! best-selling gifts of each region. Around it stand a handful of smaller
//! pieces, each on its own: rules on texts ([`password`], [`markup`],
//! [`shelf`]), arithmetic on lists ([`bits`], [`herd`], [`bakery`],
//! [`paging`]), and what is read off ULIDs, pictures and archives
//! ([`ulids`], [`pixels`], [`archive`]).

pub mod archive;
pub mod bakery;
pub mod bits;
pub mod herd;
pub mod ledger;
pub mod markup;
pub mod paging;
pub mod parse;
pub mod password;
pub mod pixels;
pub mod rank;
pub mod shelf;
pub mod text;
pub mod ulids;
