//! Ordered and spanning trees with machine-checked contracts.
//!
//! The search tree:
//! * [`redblack_tree`]: a set of keys in a red-black tree, with insertion, deletion
//!   and search;
//! * [`node`]: the nodes, the red-black rules and rotation;
//! * [`insertion`], [`deletion`]: the two changes and the repairs they need;
//! * [`checking`]: deciding the rules by walking a tree;
//! * [`lineage`]: which node is the parent of which;
//! * [`equality`]: `==` on subtrees;
//! * [`order`], [`ascending`], [`history`]: the order of keys, ascending sequences of
//!   keys, and what a tree holds after a run of changes;
//! * [`filtering`]: facts about filtered sequences that both halves use.
//!
//! The spanning forest:
//! * [`kruskal`]: disjoint sets and Kruskal's algorithm;
//! * [`forest`]: the parent links behind the disjoint sets;
//! * [`sorting`]: the stable sort of edges by cost;
//! * [`spanning`]: which vertices a set of edges connects, and the greedy choice;
//! * [`minimality`]: why the greedy choice costs least.

pub mod ascending;
pub mod checking;
pub mod deletion;
pub mod equality;
pub mod filtering;
pub mod forest;
pub mod history;
pub mod insertion;
pub mod kruskal;
pub mod lineage;
pub mod minimality;
pub mod node;
pub mod order;
pub mod redblack_tree;
pub mod sorting;
pub mod spanning;
