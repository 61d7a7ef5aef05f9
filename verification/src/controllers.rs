pub mod apotheosis;
pub mod connect;
pub mod descent_laws;
pub mod join;
pub mod laws;
pub mod layout;
pub mod link;
pub mod metric_tree;
pub mod neighborhood;
pub mod nndescent;
pub mod nsg;
pub mod occlusion;
pub mod prune;
pub mod radix_tree;
pub mod renew;
pub mod renew_laws;
pub mod search;
pub mod search_laws;
pub mod start_laws;
pub mod vantage;
pub mod vp_forest;
