pub mod range;
pub mod min_max;
pub mod integer_segment_tree;
pub mod is_there;
pub mod first_challenge;
pub mod wilbur;
pub mod max_subarray;
pub mod tree;
pub mod first_hands_on;
pub mod graph;
pub mod house_robber;
pub mod minimum_path_sum;
pub mod lis;
pub mod course_design;
pub mod holiday;
pub mod lcs;
pub mod partition;
pub mod duplicate_element;
pub mod maximize_distance;
pub mod find_peak_element;
pub mod trapping_rain_water;
pub mod subarray_sum;
pub mod nested_segments;
pub mod integers_covered;
