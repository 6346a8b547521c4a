{
  "boot_s": 10,
  "sla_s": 60,
  "check_costs_s": { "x": 20, "y": 10, "z": 10 },
  "jobs": [
    { "job_id": "A", "repo": "example", "arrived_at_s": 0, "checks": ["x"] },
    { "job_id": "B", "repo": "example", "arrived_at_s": 0, "checks": ["y"] },
    { "job_id": "C", "repo": "example", "arrived_at_s": 20, "checks": ["y", "z"] }
  ]
}
