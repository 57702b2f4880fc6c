pub mod sfd;
pub mod simple_knapsack;
pub mod vertex_cover;
