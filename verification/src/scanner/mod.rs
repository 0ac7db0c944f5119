pub mod scenario_scan;
